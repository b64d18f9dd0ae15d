//! Token streams: their bytes, and random batches of windows.

use rand::rngs::StdRng;
use vstd::prelude::*;

use crate::arena::{append, copied, lemma_row_bounds, lemma_rows_apart, row};
use crate::bytes::{
    byte_range, le_bytes, le_value, lemma_byte_ranges, lemma_le_bytes_len, lemma_le_round_trip,
    push_le, read_le,
};
use crate::model::unique::lemma_rows_join;
use crate::rng::{draw_indices, indices_are, indices_single_valued, lemma_indices_unique};

verus! {

/// The low sixteen bits of each id.
pub open spec fn low_words(ids: Seq<u32>) -> Seq<u16> {
    ids.map_values(|id: u32| (id % 0x1_0000) as u16)
}

/// A tokenizer's ids as a flat stream of `u16`: the low sixteen bits of each,
/// which is all of it for a vocabulary of up to 65536.
pub fn encode_ids(ids: &[u32]) -> (stream: Vec<u16>)
    ensures
        stream@ == low_words(ids@),
{
    let mut stream: Vec<u16> = Vec::with_capacity(ids.len());
    for i in 0..ids.len()
        invariant
            stream@ == low_words(ids@).subrange(0, i as int),
    {
        let id: u32 = ids[i] % 0x1_0000;
        stream.push(id as u16);
        assert(stream@ =~= low_words(ids@).subrange(0, i + 1));
    }
    assert(low_words(ids@).subrange(0, ids@.len() as int) =~= low_words(ids@));
    stream
}

/// The first nine tenths of the ids, rounded down, and the rest: a stream to
/// train on and one to validate with.
pub fn split_ids(ids: &[u16]) -> (res: (Vec<u16>, Vec<u16>))
    ensures
        res.0@ == ids@.subrange(0, ids@.len() as int * 9 / 10),
        res.1@ == ids@.subrange(ids@.len() as int * 9 / 10, ids@.len() as int),
{
    let n = ids.len();
    let split = n / 10 * 9 + n % 10 * 9 / 10;
    assert(split == n * 9 / 10);
    (copied(&ids[0..split]), copied(&ids[split..n]))
}

/// The bytes of a token stream: two for each id, the low one first.
pub open spec fn stream_bytes(ids: Seq<u16>) -> Seq<u8>
    decreases ids.len(),
{
    if ids.len() == 0 {
        Seq::empty()
    } else {
        stream_bytes(ids.drop_last()) + le_bytes(ids.last() as nat, 2)
    }
}

/// The token stream of which these are the bytes; an odd last byte is left out.
pub open spec fn stream_of(bytes: Seq<u8>) -> Seq<u16> {
    Seq::new(bytes.len() / 2, |i: int| le_value(bytes.subrange(2 * i, 2 * i + 2)) as u16)
}

/// The stream has two bytes for each id, and those of id `i` lie at `2 * i`.
proof fn lemma_stream_bytes(ids: Seq<u16>)
    ensures
        stream_bytes(ids).len() == 2 * ids.len(),
        forall|i: int|
            0 <= i < ids.len() ==> #[trigger] stream_bytes(ids).subrange(2 * i, 2 * i + 2)
                == le_bytes(ids[i] as nat, 2),
    decreases ids.len(),
{
    if ids.len() > 0 {
        let init = ids.drop_last();
        lemma_stream_bytes(init);
        lemma_le_bytes_len(ids.last() as nat, 2);
        let all = stream_bytes(ids);
        assert forall|i: int| 0 <= i < ids.len() implies #[trigger] all.subrange(2 * i, 2 * i + 2)
            == le_bytes(ids[i] as nat, 2) by {
            if i < init.len() {
                assert(all.subrange(2 * i, 2 * i + 2) =~= stream_bytes(init).subrange(
                    2 * i,
                    2 * i + 2,
                ));
                assert(init[i] == ids[i]);
            } else {
                assert(all.subrange(2 * i, 2 * i + 2) =~= le_bytes(ids[i] as nat, 2));
            }
        }
    }
}

/// A token stream is read back from its bytes.
pub proof fn lemma_stream_round_trip(ids: Seq<u16>)
    ensures
        stream_bytes(ids).len() == 2 * ids.len(),
        stream_of(stream_bytes(ids)) == ids,
{
    lemma_stream_bytes(ids);
    lemma_byte_ranges();
    let bytes = stream_bytes(ids);
    assert forall|i: int| 0 <= i < ids.len() implies stream_of(bytes)[i] == ids[i] by {
        lemma_le_round_trip(ids[i] as nat, 2);
        assert(bytes.subrange(2 * i, 2 * i + 2) == le_bytes(ids[i] as nat, 2));
    }
    assert(stream_of(bytes) =~= ids);
}

/// The ids as little-endian `u16` bytes.
pub fn write_u16_le(ids: &[u16]) -> (bytes: Vec<u8>)
    ensures
        bytes@ == stream_bytes(ids@),
{
    let mut bytes: Vec<u8> = Vec::new();
    for i in 0..ids.len()
        invariant
            bytes@ == stream_bytes(ids@.subrange(0, i as int)),
    {
        push_le(&mut bytes, ids[i] as u64, 2);
        proof {
            let more = ids@.subrange(0, i + 1);
            assert(more.drop_last() =~= ids@.subrange(0, i as int));
        }
    }
    assert(ids@.subrange(0, ids@.len() as int) =~= ids@);
    bytes
}

/// Id `i` of a stream stands in its bytes as the remainder and the quotient by
/// 256, and is read as the first of its two bytes plus 256 times the second.
pub proof fn lemma_stream_places(ids: Seq<u16>, bytes: Seq<u8>, i: int)
    ensures
        0 <= i < ids.len() ==> stream_bytes(ids)[2 * i] == ids[i] % 256,
        0 <= i < ids.len() ==> stream_bytes(ids)[2 * i + 1] == ids[i] / 256,
        0 <= 2 * i < bytes.len() - 1 ==> stream_of(bytes)[i] == bytes[2 * i] + 256 * bytes[2 * i
            + 1],
{
    if 0 <= i < ids.len() {
        lemma_stream_bytes(ids);
        reveal_with_fuel(le_bytes, 3);
        let two = stream_bytes(ids).subrange(2 * i, 2 * i + 2);
        assert(two == le_bytes(ids[i] as nat, 2));
        assert(two[0] == stream_bytes(ids)[2 * i]);
        assert(two[1] == stream_bytes(ids)[2 * i + 1]);
    }
    if 0 <= 2 * i < bytes.len() - 1 {
        reveal_with_fuel(le_value, 3);
        let two = bytes.subrange(2 * i, 2 * i + 2);
        assert(le_value(two) == two[0] + 256 * two[1]);
    }
}

/// Splitting keeps every id in its place, and gives the training part nine
/// tenths of them: as many whole ids as nine tenths hold.
pub proof fn lemma_split_shares(ids: &[u16], res: (Vec<u16>, Vec<u16>))
    requires
        call_ensures(split_ids, (ids,), res),
    ensures
        res.0@ + res.1@ == ids@,
        10 * res.0@.len() <= 9 * ids@.len() < 10 * res.0@.len() + 10,
{
    assert(res.0@ + res.1@ =~= ids@);
}

/// Each id is kept up to multiples of 65536, and as it is where it is smaller.
pub proof fn lemma_ids_encoded(ids: &[u32], stream: Vec<u16>, i: int)
    requires
        call_ensures(encode_ids, (ids,), stream),
        0 <= i < ids@.len(),
    ensures
        stream@.len() == ids@.len(),
        (ids@[i] - stream@[i]) % 0x1_0000 == 0,
        ids@[i] < 0x1_0000 ==> stream@[i] == ids@[i],
{
}

/// Holds a token stream in memory and serves random `[B, T]` batches.
pub struct DataLoader {
    pub data: Vec<u16>,
    pub batch_size: usize,
    pub block_size: usize,
}

/// Row `r` of `x` is the window of `t` tokens of `data` from `starts[r]` on,
/// and row `r` of `y` the window one token further.
pub open spec fn batch_is(
    data: Seq<u16>,
    starts: Seq<usize>,
    t: int,
    x: Seq<u16>,
    y: Seq<u16>,
) -> bool {
    &&& x.len() == starts.len() * t
    &&& y.len() == starts.len() * t
    &&& forall|r: int|
        0 <= r < starts.len() ==> #[trigger] row(x, r, t) == data.subrange(
            starts[r] as int,
            starts[r] + t,
        )
    &&& forall|r: int|
        0 <= r < starts.len() ==> #[trigger] row(y, r, t) == data.subrange(
            starts[r] + 1,
            starts[r] + 1 + t,
        )
}

/// A window of `t` tokens from each start, and the one a token further, lie in
/// the stream.
pub open spec fn starts_fit(data: Seq<u16>, starts: Seq<usize>, t: int) -> bool {
    forall|r: int| 0 <= r < starts.len() ==> #[trigger] starts[r] + t + 1 <= data.len()
}

/// Drawing a batch may give `(x, y)` and take the generator from `before` to
/// `after`: a start for each row, one after the other.
pub open spec fn batch_drawn_is(
    loader: DataLoader,
    before: StdRng,
    x: Seq<u16>,
    y: Seq<u16>,
    after: StdRng,
) -> bool {
    exists|starts: Seq<usize>|
        starts.len() == loader.batch_size && starts_fit(
            loader.data@,
            starts,
            loader.block_size as int,
        ) && indices_are(before, loader.max_start(), starts, after) && #[trigger] batch_is(
            loader.data@,
            starts,
            loader.block_size as int,
            x,
            y,
        )
}

/// The targets of a batch are its inputs shifted one token to the left: within
/// a row, each target is the next input.
pub proof fn lemma_targets_shifted(
    data: Seq<u16>,
    starts: Seq<usize>,
    t: int,
    x: Seq<u16>,
    y: Seq<u16>,
    r: int,
    j: int,
)
    requires
        batch_is(data, starts, t, x, y),
        starts_fit(data, starts, t),
        0 <= r < starts.len(),
        0 <= j,
        j + 1 < t,
    ensures
        y[r * t + j] == x[r * t + j + 1],
{
    lemma_row_bounds(r, starts.len() as int, t);
    assert(row(x, r, t)[j + 1] == data[starts[r] + j + 1]);
    assert(row(y, r, t)[j] == data[starts[r] + 1 + j]);
}

/// Each of the `b` rows of `t` inputs is a window of the stream, and its targets
/// are the tokens that follow them in the stream.
pub open spec fn windows_of(
    data: Seq<u16>,
    b: int,
    t: int,
    x: Seq<u16>,
    y: Seq<u16>,
) -> bool {
    &&& x.len() == b * t
    &&& y.len() == b * t
    &&& forall|r: int| 0 <= r < b ==> #[trigger] row_is_window(data, t, x, y, r)
}

/// Row `r` is a window.
pub open spec fn row_is_window(data: Seq<u16>, t: int, x: Seq<u16>, y: Seq<u16>, r: int) -> bool {
    exists|start: int| #[trigger] window_at(data, t, x, y, r, start)
}

/// Row `r` is the window from `start` on.
pub open spec fn window_at(
    data: Seq<u16>,
    t: int,
    x: Seq<u16>,
    y: Seq<u16>,
    r: int,
    start: int,
) -> bool {
    &&& 0 <= start
    &&& start + t + 1 <= data.len()
    &&& forall|j: int|
        0 <= j < t ==> #[trigger] x[r * t + j] == data[start + j] && y[r * t + j] == data[start + j
            + 1]
}

/// Every token of a batch comes out of the stream of the loader: a row of inputs
/// is a window of the stream, and each target the token behind its input.
pub proof fn lemma_batch_windows(
    loader: DataLoader,
    before: StdRng,
    x: Seq<u16>,
    y: Seq<u16>,
    after: StdRng,
)
    requires
        batch_drawn_is(loader, before, x, y, after),
    ensures
        windows_of(
            loader.data@,
            loader.batch_size as int,
            loader.block_size as int,
            x,
            y,
        ),
{
    let t = loader.block_size as int;
    let b = loader.batch_size as int;
    let starts = choose|starts: Seq<usize>|
        starts.len() == loader.batch_size && starts_fit(loader.data@, starts, t) && indices_are(
            before,
            loader.max_start(),
            starts,
            after,
        ) && #[trigger] batch_is(loader.data@, starts, t, x, y);
    assert forall|r: int| 0 <= r < b implies #[trigger] row_is_window(
        loader.data@,
        t,
        x,
        y,
        r,
    ) by {
        lemma_row_bounds(r, b, t);
        let start = starts[r] as int;
        assert(starts[r] + t + 1 <= loader.data@.len());
        assert forall|j: int| 0 <= j < t implies #[trigger] x[r * t + j] == loader.data@[start + j]
            && y[r * t + j] == loader.data@[start + j + 1] by {
            assert(row(x, r, t)[j] == loader.data@[start + j]);
            assert(row(y, r, t)[j] == loader.data@[start + 1 + j]);
        }
        assert(window_at(loader.data@, t, x, y, r, start));
    }
}

/// The state of the generator decides the batch and where the generator goes.
pub proof fn lemma_batch_unique(
    loader: DataLoader,
    before: StdRng,
    x1: Seq<u16>,
    y1: Seq<u16>,
    a: StdRng,
    x2: Seq<u16>,
    y2: Seq<u16>,
    b: StdRng,
)
    requires
        indices_single_valued(),
        batch_drawn_is(loader, before, x1, y1, a),
        batch_drawn_is(loader, before, x2, y2, b),
    ensures
        x1 == x2,
        y1 == y2,
        a == b,
{
    let t = loader.block_size as int;
    let n = loader.batch_size as int;
    let d = choose|d: Seq<usize>|
        d.len() == loader.batch_size && starts_fit(loader.data@, d, t) && indices_are(
            before,
            loader.max_start(),
            d,
            a,
        ) && #[trigger] batch_is(loader.data@, d, t, x1, y1);
    let e = choose|e: Seq<usize>|
        e.len() == loader.batch_size && starts_fit(loader.data@, e, t) && indices_are(
            before,
            loader.max_start(),
            e,
            b,
        ) && #[trigger] batch_is(loader.data@, e, t, x2, y2);
    lemma_indices_unique(before, loader.max_start(), d, a, e, b);
    assert forall|r: int| 0 <= r < n implies #[trigger] row(x1, r, t) == row(x2, r, t) by {
        assert(row(x1, r, t) == loader.data@.subrange(d[r] as int, d[r] + t));
    }
    lemma_rows_join(x1, x2, n, t);
    assert forall|r: int| 0 <= r < n implies #[trigger] row(y1, r, t) == row(y2, r, t) by {
        assert(row(y1, r, t) == loader.data@.subrange(d[r] + 1, d[r] + 1 + t));
    }
    lemma_rows_join(y1, y2, n, t);
}

/// Every window of the stream can be served: whatever starts are drawn up to the
/// last place from which `t` inputs and their targets reach the end, the windows
/// from there make a batch.
pub proof fn lemma_windows_served(
    loader: DataLoader,
    before: StdRng,
    last: usize,
    starts: Seq<usize>,
    x: Seq<u16>,
    y: Seq<u16>,
    after: StdRng,
)
    requires
        last + loader.block_size + 1 == loader.data@.len(),
        starts.len() == loader.batch_size,
        forall|r: int| 0 <= r < starts.len() ==> #[trigger] starts[r] <= last,
        indices_are(before, last, starts, after),
        batch_is(loader.data@, starts, loader.block_size as int, x, y),
    ensures
        batch_drawn_is(loader, before, x, y, after),
{
}

impl DataLoader {
    /// A loader for the token stream that `bytes` hold.
    pub fn from_bin(bytes: &[u8], batch_size: usize, block_size: usize) -> (res: Self)
        requires
            bytes@.len() % 2 == 0,
            bytes@.len() / 2 > block_size + 1,
        ensures
            res.data@ == stream_of(bytes@),
            res.batch_size == batch_size,
            res.block_size == block_size,
    {
        let n = bytes.len() / 2;
        let mut data: Vec<u16> = Vec::with_capacity(n);
        proof {
            lemma_byte_ranges();
        }
        for i in 0..n
            invariant
                n == bytes@.len() / 2,
                byte_range(2) == 0x1_0000,
                data@ == stream_of(bytes@).subrange(0, i as int),
        {
            assert(2 * i + 2 <= bytes.len());
            let pair = &bytes[2 * i..2 * i + 2];
            let id = read_le(pair);
            data.push(id as u16);
            assert(data@ =~= stream_of(bytes@).subrange(0, i + 1));
        }
        assert(stream_of(bytes@).subrange(0, n as int) =~= stream_of(bytes@));
        DataLoader { data, batch_size, block_size }
    }

    /// The last place at which a window and its targets can start.
    pub open spec fn max_start(self) -> usize {
        (self.data@.len() - self.block_size - 1) as usize
    }

    /// One random batch `(inputs, targets)`, each a flat row-major buffer of
    /// `batch_size * block_size` ids. The targets are the inputs shifted one
    /// token to the left. Each row starts at a place that is drawn for it.
    pub fn next_batch(&self, rng: &mut StdRng) -> (res: (Vec<u16>, Vec<u16>))
        requires
            self.block_size + 1 <= self.data@.len(),
        ensures
            batch_drawn_is(*self, *old(rng), res.0@, res.1@, *final(rng)),
    {
        let max_start = self.data.len() - self.block_size - 1;
        let starts = draw_indices(self.batch_size, max_start, rng);
        let res = self.batch_at(starts.as_slice());
        assert(batch_is(self.data@, starts@, self.block_size as int, res.0@, res.1@));
        res
    }

    /// The batch whose rows start at the given places of the stream.
    pub fn batch_at(&self, starts: &[usize]) -> (res: (Vec<u16>, Vec<u16>))
        requires
            starts_fit(self.data@, starts@, self.block_size as int),
        ensures
            batch_is(self.data@, starts@, self.block_size as int, res.0@, res.1@),
    {
        let t = self.block_size;
        let mut x: Vec<u16> = Vec::new();
        let mut y: Vec<u16> = Vec::new();
        assert(0 * t == 0) by (nonlinear_arith);
        for r in 0..starts.len()
            invariant
                t == self.block_size,
                starts_fit(self.data@, starts@, t as int),
                batch_is(self.data@, starts@.subrange(0, r as int), t as int, x@, y@),
        {
            let i = starts[r];
            let ghost x0 = x@;
            let ghost y0 = y@;
            let ghost done = starts@.subrange(0, r as int);
            assert(starts@[r as int] + t + 1 <= self.data.len());
            append(&mut x, &self.data.as_slice()[i..i + t]);
            append(&mut y, &self.data.as_slice()[i + 1..i + 1 + t]);
            proof {
                let more = starts@.subrange(0, r + 1);
                lemma_row_bounds(r as int, r + 1, t as int);
                assert forall|q: int| 0 <= q < more.len() implies #[trigger] row(x@, q, t as int)
                    == self.data@.subrange(more[q] as int, more[q] + t) by {
                    if q < r {
                        lemma_rows_apart(q, r as int, t as int);
                        lemma_row_bounds(q, r as int, t as int);
                        assert(row(x@, q, t as int) =~= row(x0, q, t as int));
                        assert(done[q] == more[q]);
                    } else {
                        assert(row(x@, q, t as int) =~= self.data@.subrange(i as int, i + t));
                    }
                }
                assert forall|q: int| 0 <= q < more.len() implies #[trigger] row(y@, q, t as int)
                    == self.data@.subrange(more[q] + 1, more[q] + 1 + t) by {
                    if q < r {
                        lemma_rows_apart(q, r as int, t as int);
                        lemma_row_bounds(q, r as int, t as int);
                        assert(row(y@, q, t as int) =~= row(y0, q, t as int));
                        assert(done[q] == more[q]);
                    } else {
                        assert(row(y@, q, t as int) =~= self.data@.subrange(i + 1, i + 1 + t));
                    }
                }
            }
        }
        assert(starts@.subrange(0, starts@.len() as int) =~= starts@);
        (x, y)
    }

    /// Tokens in the stream.
    pub fn num_tokens(&self) -> (n: usize)
        ensures
            n == self.data@.len(),
    {
        self.data.len()
    }
}

/// What is written is read back by a loader: it serves the ids of the stream, in
/// batches and windows of the sizes it was made for.
pub proof fn lemma_written_is_served(
    ids: &[u16],
    bytes: Vec<u8>,
    read: &[u8],
    batch_size: usize,
    block_size: usize,
    loader: DataLoader,
)
    requires
        call_ensures(write_u16_le, (ids,), bytes),
        read@ == bytes@,
        call_ensures(DataLoader::from_bin, (read, batch_size, block_size), loader),
    ensures
        bytes@.len() == 2 * ids@.len(),
        loader.data@ == ids@,
        loader.batch_size == batch_size,
        loader.block_size == block_size,
{
    lemma_stream_round_trip(ids@);
}

} // verus!
