//! What a reader of a GGUF file finds in it: numbers, texts, metadata, tensor
//! infos and tensor data, each at its place.

use vstd::prelude::*;
use vstd::utf8::*;

use crate::bytes::{
    byte_range, le_bytes, le_value, lemma_byte_ranges, lemma_le_bytes_len, lemma_le_round_trip,
};
use crate::gguf::{
    data_start, dims_bytes, file_bytes, front_bytes, header_bytes, info_bytes, infos_bytes,
    ints_bytes, kvs_bytes, lemma_aligned, lemma_tensor_found, padded, string_bytes, strings_bytes,
    tensor_offset, value_bytes, ALIGNMENT, GgufView, GgufWriter, KvView, TensorView,
};
use crate::model::checkpoint::{checkpoint_is, lemma_checkpoint_places};
use crate::scalar::{bits_are, Single};

verus! {

/// The number in the `n` bytes at `at`, the lowest first.
pub open spec fn number_at(s: Seq<u8>, at: int, n: int) -> nat {
    le_value(s.subrange(at, at + n))
}

/// At `at` a reader finds a text that ends at `end`: eight bytes with the number
/// of its bytes, and its bytes.
pub open spec fn text_at(s: Seq<u8>, at: int, text: Seq<char>, end: int) -> bool {
    &&& 0 <= at
    &&& end == at + 8 + encode_utf8(text).len()
    &&& end <= s.len()
    &&& number_at(s, at, 8) == encode_utf8(text).len()
    &&& s.subrange(at + 8, end) == encode_utf8(text)
}

/// From `at` on a reader finds the texts, one behind the other, up to `end`.
pub open spec fn texts_at(s: Seq<u8>, at: int, items: Seq<Seq<char>>, end: int) -> bool {
    exists|places: Seq<int>| #[trigger]
        places.len() == items.len() + 1 && places[0] == at && places.last() == end && forall|k: int|
            0 <= k < items.len() ==> #[trigger] text_at(s, places[k], items[k], places[k + 1])
}

/// At `at` a reader finds a metadata value that ends at `end`: a type number of
/// four bytes, and what the type says. The types are 4 for an unsigned number, 6
/// for a float, 7 for a truth value, 8 for a text and 9 for an array, of which
/// the type of the items, their number and the items follow; 5 is the type of a
/// signed number.
pub open spec fn value_at(s: Seq<u8>, at: int, v: KvView, end: int) -> bool {
    &&& 0 <= at
    &&& at + 4 <= end <= s.len()
    &&& match v {
        KvView::U32(x) => number_at(s, at, 4) == 4 && end == at + 8 && number_at(s, at + 4, 4)
            == x,
        KvView::F32(x) => number_at(s, at, 4) == 6 && end == at + 8 && number_at(s, at + 4, 4)
            == x,
        KvView::Bool(b) => number_at(s, at, 4) == 7 && end == at + 5 && s[at + 4] == if b {
            1u8
        } else {
            0u8
        },
        KvView::Str(text) => number_at(s, at, 4) == 8 && text_at(s, at + 4, text, end),
        KvView::ArrStr(items) => {
            &&& number_at(s, at, 4) == 9
            &&& number_at(s, at + 4, 4) == 8
            &&& number_at(s, at + 8, 8) == items.len()
            &&& texts_at(s, at + 16, items, end)
        },
        KvView::ArrI32(items) => {
            &&& number_at(s, at, 4) == 9
            &&& number_at(s, at + 4, 4) == 5
            &&& number_at(s, at + 8, 8) == items.len()
            &&& end == at + 16 + 4 * items.len()
            &&& forall|k: int|
                0 <= k < items.len() ==> number_at(s, at + 16 + 4 * k, 4) == #[trigger] items[k]
                    as u32
        },
    }
}

/// At `at` a reader finds a key and its value, which end at `end`.
pub open spec fn pair_at(s: Seq<u8>, at: int, kv: (Seq<char>, KvView), end: int) -> bool {
    exists|mid: int| #[trigger] text_at(s, at, kv.0, mid) && value_at(s, mid, kv.1, end)
}

/// At `at` a reader finds the info of a tensor, which ends at `end`: its name,
/// the number of its dimensions, each dimension in the order given, the type 0
/// of single-precision floats, and the offset of its data.
pub open spec fn info_at(s: Seq<u8>, at: int, t: TensorView, offset: nat, end: int) -> bool {
    let dims = at + 8 + encode_utf8(t.name).len() + 4;
    let behind = dims + 8 * t.dims.len();
    &&& text_at(s, at, t.name, dims - 4)
    &&& end == behind + 12
    &&& end <= s.len()
    &&& number_at(s, dims - 4, 4) == t.dims.len()
    &&& forall|k: int|
        0 <= k < t.dims.len() ==> number_at(s, dims + 8 * k, 8) == #[trigger] t.dims[k]
    &&& number_at(s, behind, 4) == 0
    &&& number_at(s, behind + 4, 8) == offset
}

/// The piece stands in `s` at `at`.
spec fn stands(s: Seq<u8>, at: int, piece: Seq<u8>) -> bool {
    &&& 0 <= at
    &&& at + piece.len() <= s.len()
    &&& s.subrange(at, at + piece.len()) == piece
}

/// Two pieces behind each other.
proof fn lemma_stands_split(s: Seq<u8>, at: int, a: Seq<u8>, b: Seq<u8>)
    requires
        stands(s, at, a + b),
    ensures
        stands(s, at, a),
        stands(s, at + a.len(), b),
{
    let all = s.subrange(at, at + (a + b).len());
    assert(s.subrange(at, at + a.len()) =~= all.subrange(0, a.len() as int));
    assert((a + b).subrange(0, a.len() as int) =~= a);
    assert(s.subrange(at + a.len(), at + a.len() + b.len()) =~= all.subrange(
        a.len() as int,
        (a.len() + b.len()) as int,
    ));
    assert((a + b).subrange(a.len() as int, (a.len() + b.len()) as int) =~= b);
}

/// A number is read back.
proof fn lemma_number(s: Seq<u8>, at: int, x: nat, n: nat)
    requires
        stands(s, at, le_bytes(x, n)),
        x < byte_range(n),
    ensures
        number_at(s, at, n as int) == x,
{
    lemma_le_bytes_len(x, n);
    lemma_le_round_trip(x, n);
}

/// A text is read back.
proof fn lemma_text(s: Seq<u8>, at: int, text: Seq<char>)
    requires
        s.len() <= u64::MAX,
        stands(s, at, string_bytes(text)),
    ensures
        text_at(s, at, text, at + string_bytes(text).len()),
        string_bytes(text).len() == 8 + encode_utf8(text).len(),
{
    let n = encode_utf8(text).len();
    lemma_byte_ranges();
    lemma_le_bytes_len(n, 8);
    lemma_stands_split(s, at, le_bytes(n, 8), encode_utf8(text));
    lemma_number(s, at, n, 8);
}

/// Where text `k` of an array starts.
spec fn text_place(at: int, items: Seq<Seq<char>>, k: int) -> int {
    at + strings_bytes(items, k as nat).len()
}

/// Text `k` of the first `n` stands behind those before it.
proof fn lemma_text_stands(s: Seq<u8>, at: int, items: Seq<Seq<char>>, n: nat, k: int)
    requires
        stands(s, at, strings_bytes(items, n)),
        0 <= k < n <= items.len(),
    ensures
        stands(s, text_place(at, items, k), string_bytes(items[k])),
    decreases n,
{
    let init = strings_bytes(items, (n - 1) as nat);
    lemma_stands_split(s, at, init, string_bytes(items[n - 1]));
    if k < n - 1 {
        lemma_text_stands(s, at, items, (n - 1) as nat, k);
    }
}

/// Every text takes at least a byte.
proof fn lemma_texts_len(items: Seq<Seq<char>>, n: nat)
    requires
        n <= items.len(),
    ensures
        n <= strings_bytes(items, n).len(),
    decreases n,
{
    if n > 0 {
        lemma_texts_len(items, (n - 1) as nat);
        lemma_le_bytes_len(encode_utf8(items[n - 1]).len(), 8);
    }
}

/// The texts of an array are read back.
proof fn lemma_texts(s: Seq<u8>, at: int, items: Seq<Seq<char>>)
    requires
        s.len() <= u64::MAX,
        stands(s, at, strings_bytes(items, items.len())),
    ensures
        texts_at(s, at, items, at + strings_bytes(items, items.len()).len()),
        items.len() <= u64::MAX,
{
    let n = items.len();
    lemma_texts_len(items, n);
    let places = Seq::new(n + 1, |k: int| text_place(at, items, k));
    assert forall|k: int| 0 <= k < n implies #[trigger] text_at(
        s,
        places[k],
        items[k],
        places[k + 1],
    ) by {
        lemma_text_stands(s, at, items, n, k);
        lemma_text(s, text_place(at, items, k), items[k]);
        assert(strings_bytes(items, (k + 1) as nat) == strings_bytes(items, k as nat)
            + string_bytes(items[k]));
    }
    assert(places.len() == items.len() + 1 && places[0] == at && places.last() == at
        + strings_bytes(items, n).len());
}

/// The first `n` numbers of an array take four bytes each, and number `k` stands
/// at its place.
proof fn lemma_ints(s: Seq<u8>, at: int, items: Seq<i32>, n: nat)
    requires
        stands(s, at, ints_bytes(items, n)),
        n <= items.len(),
    ensures
        ints_bytes(items, n).len() == 4 * n,
        forall|k: int| 0 <= k < n ==> number_at(s, at + 4 * k, 4) == #[trigger] items[k] as u32,
    decreases n,
{
    if n > 0 {
        let init = ints_bytes(items, (n - 1) as nat);
        let x = (items[n - 1] as u32) as nat;
        lemma_stands_split(s, at, init, le_bytes(x, 4));
        lemma_ints(s, at, items, (n - 1) as nat);
        lemma_byte_ranges();
        lemma_le_bytes_len(x, 4);
        lemma_number(s, at + init.len(), x, 4);
    }
}

/// A metadata value is read back.
proof fn lemma_value(s: Seq<u8>, at: int, v: KvView)
    requires
        s.len() <= u64::MAX,
        stands(s, at, value_bytes(v)),
    ensures
        value_at(s, at, v, at + value_bytes(v).len()),
{
    lemma_byte_ranges();
    lemma_le_bytes_len(4, 4);
    lemma_le_bytes_len(5, 4);
    lemma_le_bytes_len(6, 4);
    lemma_le_bytes_len(7, 4);
    lemma_le_bytes_len(8, 4);
    lemma_le_bytes_len(9, 4);
    match v {
        KvView::U32(x) => {
            lemma_le_bytes_len(x as nat, 4);
            lemma_stands_split(s, at, le_bytes(4, 4), le_bytes(x as nat, 4));
            lemma_number(s, at, 4, 4);
            lemma_number(s, at + 4, x as nat, 4);
        },
        KvView::F32(x) => {
            lemma_le_bytes_len(x as nat, 4);
            lemma_stands_split(s, at, le_bytes(6, 4), le_bytes(x as nat, 4));
            lemma_number(s, at, 6, 4);
            lemma_number(s, at + 4, x as nat, 4);
        },
        KvView::Bool(b) => {
            let byte = if b {
                1u8
            } else {
                0u8
            };
            lemma_stands_split(s, at, le_bytes(7, 4), seq![byte]);
            lemma_number(s, at, 7, 4);
            assert(s.subrange(at + 4, at + 5)[0] == byte);
        },
        KvView::Str(text) => {
            lemma_stands_split(s, at, le_bytes(8, 4), string_bytes(text));
            lemma_number(s, at, 8, 4);
            lemma_text(s, at + 4, text);
        },
        KvView::ArrStr(items) => {
            let n = items.len();
            let body = strings_bytes(items, n);
            lemma_le_bytes_len(n, 8);
            lemma_stands_split(s, at, le_bytes(9, 4) + le_bytes(8, 4) + le_bytes(n, 8), body);
            lemma_stands_split(s, at, le_bytes(9, 4) + le_bytes(8, 4), le_bytes(n, 8));
            lemma_stands_split(s, at, le_bytes(9, 4), le_bytes(8, 4));
            lemma_texts(s, at + 16, items);
            lemma_number(s, at, 9, 4);
            lemma_number(s, at + 4, 8, 4);
            lemma_number(s, at + 8, n, 8);
        },
        KvView::ArrI32(items) => {
            let n = items.len();
            let body = ints_bytes(items, n);
            lemma_le_bytes_len(n, 8);
            lemma_stands_split(s, at, le_bytes(9, 4) + le_bytes(5, 4) + le_bytes(n, 8), body);
            lemma_stands_split(s, at, le_bytes(9, 4) + le_bytes(5, 4), le_bytes(n, 8));
            lemma_stands_split(s, at, le_bytes(9, 4), le_bytes(5, 4));
            lemma_ints(s, at + 16, items, n);
            lemma_number(s, at, 9, 4);
            lemma_number(s, at + 4, 5, 4);
            lemma_number(s, at + 8, n, 8);
            assert forall|k: int| 0 <= k < n implies number_at(s, at + 16 + 4 * k, 4)
                == #[trigger] items[k] as u32 by {
                assert(number_at(s, (at + 16) + 4 * k, 4) == items[k] as u32);
            }
        },
    }
}

/// The first `n` dimensions take eight bytes each, and dimension `k` stands at
/// its place.
proof fn lemma_dims(s: Seq<u8>, at: int, dims: Seq<u64>, n: nat)
    requires
        stands(s, at, dims_bytes(dims, n)),
        n <= dims.len(),
    ensures
        dims_bytes(dims, n).len() == 8 * n,
        forall|k: int| 0 <= k < n ==> number_at(s, at + 8 * k, 8) == #[trigger] dims[k],
    decreases n,
{
    if n > 0 {
        let init = dims_bytes(dims, (n - 1) as nat);
        let x = dims[n - 1] as nat;
        lemma_stands_split(s, at, init, le_bytes(x, 8));
        lemma_dims(s, at, dims, (n - 1) as nat);
        lemma_byte_ranges();
        lemma_le_bytes_len(x, 8);
        lemma_number(s, at + init.len(), x, 8);
    }
}

/// The info of a tensor is read back: its name, its dimensions in the order
/// given, its type and its offset.
pub proof fn lemma_info_read(t: TensorView, offset: nat)
    requires
        info_bytes(t, offset).len() <= u64::MAX,
        t.dims.len() <= u32::MAX,
        offset <= u64::MAX,
    ensures
        info_at(info_bytes(t, offset), 0, t, offset, info_bytes(t, offset).len() as int),
{
    let s = info_bytes(t, offset);
    assert(s.subrange(0, s.len() as int) =~= s);
    lemma_info(s, 0, t, offset);
}

/// The info of a tensor is read back where it stands.
proof fn lemma_info(s: Seq<u8>, at: int, t: TensorView, offset: nat)
    requires
        s.len() <= u64::MAX,
        t.dims.len() <= u32::MAX,
        offset <= u64::MAX,
        stands(s, at, info_bytes(t, offset)),
    ensures
        info_at(s, at, t, offset, at + info_bytes(t, offset).len()),
{
    let n = t.dims.len();
    let name = string_bytes(t.name);
    let dims = dims_bytes(t.dims, n);
    lemma_byte_ranges();
    lemma_le_bytes_len(n, 4);
    lemma_le_bytes_len(0, 4);
    lemma_le_bytes_len(offset, 8);
    lemma_stands_split(s, at, name + le_bytes(n, 4) + dims + le_bytes(0, 4), le_bytes(offset, 8));
    lemma_stands_split(s, at, name + le_bytes(n, 4) + dims, le_bytes(0, 4));
    lemma_stands_split(s, at, name + le_bytes(n, 4), dims);
    lemma_stands_split(s, at, name, le_bytes(n, 4));
    lemma_text(s, at, t.name);
    lemma_number(s, at + name.len(), n, 4);
    lemma_dims(s, at + name.len() + 4, t.dims, n);
    let behind = at + name.len() + 4 + dims.len();
    lemma_number(s, behind, 0, 4);
    lemma_number(s, behind + 4, offset, 8);
}

/// Where pair `k` starts.
spec fn pair_place(kvs: Seq<(Seq<char>, KvView)>, k: int) -> int {
    (24 + kvs_bytes(kvs, k as nat).len()) as int
}

/// Pair `k` of the first `n` stands behind those before it.
proof fn lemma_pair_stands(s: Seq<u8>, kvs: Seq<(Seq<char>, KvView)>, n: nat, k: int)
    requires
        stands(s, 24, kvs_bytes(kvs, n)),
        0 <= k < n <= kvs.len(),
    ensures
        stands(s, pair_place(kvs, k), string_bytes(kvs[k].0) + value_bytes(kvs[k].1)),
    decreases n,
{
    let init = kvs_bytes(kvs, (n - 1) as nat);
    lemma_stands_split(s, 24, init, string_bytes(kvs[n - 1].0) + value_bytes(kvs[n - 1].1));
    if k < n - 1 {
        lemma_pair_stands(s, kvs, (n - 1) as nat, k);
    }
}

/// Every pair takes at least a byte.
proof fn lemma_pairs_len(kvs: Seq<(Seq<char>, KvView)>, n: nat)
    requires
        n <= kvs.len(),
    ensures
        n <= kvs_bytes(kvs, n).len(),
    decreases n,
{
    if n > 0 {
        lemma_pairs_len(kvs, (n - 1) as nat);
        lemma_le_bytes_len(encode_utf8(kvs[n - 1].0).len(), 8);
    }
}

/// Where the info of tensor `k` starts.
spec fn info_place(at: int, tensors: Seq<TensorView>, k: int) -> int {
    at + infos_bytes(tensors, k as nat).len()
}

/// Info `k` of the first `n` stands behind those before it.
proof fn lemma_info_stands(s: Seq<u8>, at: int, tensors: Seq<TensorView>, n: nat, k: int)
    requires
        stands(s, at, infos_bytes(tensors, n)),
        0 <= k < n <= tensors.len(),
    ensures
        stands(
            s,
            info_place(at, tensors, k),
            info_bytes(tensors[k], tensor_offset(tensors, k as nat)),
        ),
    decreases n,
{
    let init = infos_bytes(tensors, (n - 1) as nat);
    lemma_stands_split(
        s,
        at,
        init,
        info_bytes(tensors[n - 1], tensor_offset(tensors, (n - 1) as nat)),
    );
    if k < n - 1 {
        lemma_info_stands(s, at, tensors, (n - 1) as nat, k);
    }
}

/// Every info takes at least a byte.
proof fn lemma_infos_len(tensors: Seq<TensorView>, n: nat)
    requires
        n <= tensors.len(),
    ensures
        n <= infos_bytes(tensors, n).len(),
    decreases n,
{
    if n > 0 {
        lemma_infos_len(tensors, (n - 1) as nat);
        lemma_le_bytes_len(0, 4);
    }
}

/// What a reader finds in the file `s`: the magic `GGUF`, the version 3, the
/// number of tensors and of pairs; from byte 24 on the pairs, one behind the
/// other, and behind them the infos, with the given offsets.
pub open spec fn front_read(
    s: Seq<u8>,
    w: GgufView,
    pairs: Seq<int>,
    infos: Seq<int>,
    offsets: Seq<nat>,
) -> bool {
    &&& s.len() >= 24
    &&& s[0] == 0x47 && s[1] == 0x47 && s[2] == 0x55 && s[3] == 0x46
    &&& number_at(s, 4, 4) == 3
    &&& number_at(s, 8, 8) == w.tensors.len()
    &&& number_at(s, 16, 8) == w.kvs.len()
    &&& pairs.len() == w.kvs.len() + 1
    &&& pairs[0] == 24
    &&& forall|k: int|
        0 <= k < w.kvs.len() ==> #[trigger] pair_at(s, pairs[k], w.kvs[k], pairs[k + 1])
    &&& infos.len() == w.tensors.len() + 1
    &&& infos[0] == pairs.last()
    &&& offsets.len() == w.tensors.len()
    &&& forall|k: int|
        0 <= k < w.tensors.len() ==> #[trigger] info_at(
            s,
            infos[k],
            w.tensors[k],
            offsets[k],
            infos[k + 1],
        )
}

/// And the data: the data section starts at the least multiple of 32 that is not
/// in front of the end of the infos, with zeros in between. Each tensor's data
/// stands at its offset behind that start; the offsets are multiples of 32, no
/// tensor reaches into the next, and the file ends with the last one.
pub open spec fn data_read(
    s: Seq<u8>,
    w: GgufView,
    front: int,
    start: int,
    offsets: Seq<nat>,
) -> bool {
    &&& front <= start < front + 32
    &&& start % 32 == 0
    &&& start <= s.len()
    &&& forall|p: int| front <= p < start ==> #[trigger] s[p] == 0
    &&& forall|k: int|
        0 <= k < w.tensors.len() ==> {
            let at = start + #[trigger] offsets[k];
            let data = w.tensors[k].data;
            &&& offsets[k] % 32 == 0
            &&& at + data.len() <= s.len()
            &&& s.subrange(at, at + data.len()) == data
            &&& k + 1 < w.tensors.len() ==> offsets[k] + data.len() <= offsets[k + 1] < offsets[k]
                + data.len() + 32
        }
    &&& w.tensors.len() > 0 ==> offsets[0] == 0 && s.len() == start + offsets.last()
        + w.tensors.last().data.len()
    &&& w.tensors.len() == 0 ==> s.len() == start
}

/// A reader gets everything back from the file that a writer made: all metadata
/// in its order, all tensor infos, and all data.
pub proof fn lemma_file_read(w: GgufView)
    requires
        file_bytes(w).len() <= u64::MAX,
        forall|k: int|
            0 <= k < w.tensors.len() ==> (#[trigger] w.tensors[k]).dims.len() <= u32::MAX,
    ensures
        exists|pairs: Seq<int>, infos: Seq<int>, offsets: Seq<nat>, start: int|
            #![trigger front_read(file_bytes(w), w, pairs, infos, offsets), data_read(
                file_bytes(w),
                w,
                infos.last(),
                start,
                offsets,
            )]
            front_read(file_bytes(w), w, pairs, infos, offsets) && data_read(
                file_bytes(w),
                w,
                infos.last(),
                start,
                offsets,
            ),
{
    let s = file_bytes(w);
    let n = w.kvs.len();
    let m = w.tensors.len();
    let start = data_start(w);
    let front = front_bytes(w);
    let header = header_bytes(w);
    let metas = kvs_bytes(w.kvs, n);
    let all = infos_bytes(w.tensors, m);
    lemma_byte_ranges();
    lemma_le_bytes_len(3, 4);
    lemma_le_bytes_len(m, 8);
    lemma_le_bytes_len(n, 8);
    lemma_aligned(front.len() as int, ALIGNMENT as int);
    assert(s.subrange(0, front.len() as int) =~= front);
    assert(stands(s, 0, front));
    lemma_stands_split(s, 0, header + metas, all);
    lemma_stands_split(s, 0, header, metas);
    let magic = seq![0x47u8, 0x47u8, 0x55u8, 0x46u8];
    lemma_stands_split(s, 0, magic + le_bytes(3, 4) + le_bytes(m, 8), le_bytes(n, 8));
    lemma_stands_split(s, 0, magic + le_bytes(3, 4), le_bytes(m, 8));
    lemma_stands_split(s, 0, magic, le_bytes(3, 4));
    lemma_pairs_len(w.kvs, n);
    lemma_infos_len(w.tensors, m);
    lemma_number(s, 4, 3, 4);
    lemma_number(s, 8, m, 8);
    lemma_number(s, 16, n, 8);
    assert(s.subrange(0, 4)[0] == 0x47 && s.subrange(0, 4)[1] == 0x47 && s.subrange(0, 4)[2]
        == 0x55 && s.subrange(0, 4)[3] == 0x46);
    let pairs = Seq::new(n + 1, |k: int| pair_place(w.kvs, k));
    assert forall|k: int| 0 <= k < n implies #[trigger] pair_at(
        s,
        pairs[k],
        w.kvs[k],
        pairs[k + 1],
    ) by {
        let (key, v) = w.kvs[k];
        let at = pair_place(w.kvs, k);
        lemma_pair_stands(s, w.kvs, n, k);
        lemma_stands_split(s, at, string_bytes(key), value_bytes(v));
        lemma_text(s, at, key);
        lemma_value(s, at + string_bytes(key).len(), v);
        assert(kvs_bytes(w.kvs, (k + 1) as nat) == kvs_bytes(w.kvs, k as nat) + (string_bytes(key)
            + value_bytes(v)));
        assert(text_at(s, at, key, at + string_bytes(key).len()));
    }
    let base = 24 + metas.len() as int;
    let infos = Seq::new(m + 1, |k: int| info_place(base, w.tensors, k));
    let offsets = Seq::new(m, |k: int| tensor_offset(w.tensors, k as nat));
    assert forall|k: int| 0 <= k < m implies #[trigger] info_at(
        s,
        infos[k],
        w.tensors[k],
        offsets[k],
        infos[k + 1],
    ) by {
        lemma_tensor_found(w, k);
        lemma_info_stands(s, base, w.tensors, m, k);
        let off = tensor_offset(w.tensors, k as nat);
        lemma_info(s, info_place(base, w.tensors, k), w.tensors[k], off);
        assert(infos_bytes(w.tensors, (k + 1) as nat) == infos_bytes(w.tensors, k as nat)
            + info_bytes(w.tensors[k], off));
    }
    assert(front_read(s, w, pairs, infos, offsets));
    assert forall|p: int| front.len() <= p < start implies #[trigger] s[p] == 0 by {
        assert(padded(front, start)[p] == 0);
    }
    assert forall|k: int| 0 <= k < m implies {
        let at = start + #[trigger] offsets[k];
        let data = w.tensors[k].data;
        &&& offsets[k] % 32 == 0
        &&& at + data.len() <= s.len()
        &&& s.subrange(at, at + data.len()) == data
        &&& k + 1 < m ==> offsets[k] + data.len() <= offsets[k + 1] < offsets[k] + data.len() + 32
    } by {
        lemma_tensor_found(w, k);
        lemma_aligned(
            (tensor_offset(w.tensors, k as nat) + w.tensors[k].data.len()) as int,
            ALIGNMENT as int,
        );
    }
    if m > 0 {
        lemma_tensor_found(w, m - 1);
        crate::gguf::lemma_data_len(w.tensors, m);
    }
    assert(data_read(s, w, infos.last(), start, offsets));
}

/// The values of a tensor as bytes: four for each value, which make up its bits,
/// the lowest first.
pub open spec fn values_in<F: Single>(data: Seq<F>, bytes: Seq<u8>) -> bool {
    &&& bytes.len() == 4 * data.len()
    &&& forall|i: int| 0 <= i < data.len() ==> #[trigger] value_in(data[i], bytes, 4 * i)
}

/// The same for one value.
pub open spec fn value_in<F: Single>(x: F, bytes: Seq<u8>, at: int) -> bool {
    exists|bits: u32| #[trigger]
        bits_are(x, bits) && bits == bytes[at] + 256 * bytes[at + 1] + 65536 * bytes[at + 2]
            + 16777216 * bytes[at + 3]
}

/// `b` is `a` with one more tensor behind the others: with this name, these
/// dimensions, in this order, and these values.
pub open spec fn one_tensor_more<F: Single>(
    a: GgufView,
    name: Seq<char>,
    dims: Seq<u64>,
    data: Seq<F>,
    b: GgufView,
) -> bool {
    &&& b.kvs == a.kvs
    &&& b.tensors.len() == a.tensors.len() + 1
    &&& forall|k: int| 0 <= k < a.tensors.len() ==> #[trigger] b.tensors[k] == a.tensors[k]
    &&& b.tensors.last().name == name
    &&& b.tensors.last().dims.len() == dims.len()
    &&& forall|k: int| 0 <= k < dims.len() ==> #[trigger] b.tensors.last().dims[k] == dims[k]
    &&& values_in(data, b.tensors.last().data)
}

/// Adding a tensor does that.
pub proof fn lemma_tensor_added<F: Single>(name: &str, dims: Vec<u64>, data: &[F])
    ensures
        forall|w: &mut GgufWriter|
            #[trigger] call_ensures(
                GgufWriter::add_tensor::<F>,
                (w, name, dims, data),
                (),
            ) ==> one_tensor_more(w@, name@, dims@, data@, final(w)@),
{
    assert forall|w: &mut GgufWriter|
        #[trigger] call_ensures(
            GgufWriter::add_tensor::<F>,
            (w, name, dims, data),
            (),
        ) implies one_tensor_more(w@, name@, dims@, data@, final(w)@) by {
        let bytes = choose|bytes: Seq<u8>| #[trigger]
            checkpoint_is(data@, bytes) && final(w)@.tensors == w@.tensors.push(
                (TensorView { name: name@, dims: dims@, data: bytes }),
            );
        assert forall|i: int| 0 <= i < data@.len() implies #[trigger] value_in(
            data@[i],
            bytes,
            4 * i,
        ) by {
            lemma_checkpoint_places(data@, bytes, i);
        }
    }
}

/// Adding a float adds a pair of its key and its bits behind the others.
pub proof fn lemma_float_added<F: Single>(key: &str, x: F)
    ensures
        forall|w: &mut GgufWriter| #[trigger]
            call_ensures(GgufWriter::kv_f32::<F>, (w, key, x), ()) ==> float_added(
                w@,
                key@,
                x,
                final(w)@,
            ),
{
}

/// `b` is `a` with one more pair, of the key and the bits of `x`.
pub open spec fn float_added<F: Single>(a: GgufView, key: Seq<char>, x: F, b: GgufView) -> bool {
    &&& b.tensors == a.tensors
    &&& exists|bits: u32| #[trigger]
        bits_are(x, bits) && b.kvs == a.kvs.push((key, KvView::F32(bits)))
}

} // verus!
