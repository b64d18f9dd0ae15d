//! A writer for GGUF files, version 3: a header, typed metadata, tensor infos
//! and tensor data aligned to 32 bytes.

use vstd::prelude::*;
use vstd::string::*;
use vstd::utf8::*;

use crate::arena::append;
use crate::bytes::{le_bytes, push_le};
use crate::model::checkpoint::{checkpoint, checkpoint_is};
use crate::scalar::{bits_are, Single};

pub mod read;

verus! {

pub const ALIGNMENT: usize = 32;

/// A metadata value. A float is held as its 32 bits.
pub enum Kv {
    U32(u32),
    F32(u32),
    Bool(bool),
    Str(String),
    ArrStr(Vec<String>),
    ArrI32(Vec<i32>),
}

/// What a metadata value holds.
pub enum KvView {
    U32(u32),
    F32(u32),
    Bool(bool),
    Str(Seq<char>),
    ArrStr(Seq<Seq<char>>),
    ArrI32(Seq<i32>),
}

/// The characters of each string.
pub open spec fn texts(v: Seq<String>) -> Seq<Seq<char>> {
    Seq::new(v.len(), |i: int| v[i]@)
}

impl View for Kv {
    type V = KvView;

    open spec fn view(&self) -> KvView {
        match self {
            Kv::U32(x) => KvView::U32(*x),
            Kv::F32(x) => KvView::F32(*x),
            Kv::Bool(b) => KvView::Bool(*b),
            Kv::Str(s) => KvView::Str(s@),
            Kv::ArrStr(v) => KvView::ArrStr(texts(v@)),
            Kv::ArrI32(v) => KvView::ArrI32(v@),
        }
    }
}

/// A tensor: its dimensions, the innermost first, and its values as
/// little-endian bytes.
pub struct Tensor {
    pub name: String,
    pub dims: Vec<u64>,
    pub data: Vec<u8>,
}

/// What a tensor holds.
#[verifier::ext_equal]
pub struct TensorView {
    pub name: Seq<char>,
    pub dims: Seq<u64>,
    pub data: Seq<u8>,
}

impl View for Tensor {
    type V = TensorView;

    open spec fn view(&self) -> TensorView {
        TensorView { name: self.name@, dims: self.dims@, data: self.data@ }
    }
}

/// Accumulates metadata and tensors, then writes one GGUF file.
pub struct GgufWriter {
    pub kvs: Vec<(String, Kv)>,
    pub tensors: Vec<Tensor>,
}

/// `x` rounded up to a multiple of `a`.
pub open spec fn aligned(x: int, a: int) -> int {
    if x % a == 0 {
        x
    } else {
        (x / a + 1) * a
    }
}

/// `aligned` gives the least multiple of `a` that is not below `x`.
pub proof fn lemma_aligned(x: int, a: int)
    requires
        0 <= x,
        0 < a,
    ensures
        aligned(x, a) % a == 0,
        x <= aligned(x, a) < x + a,
        forall|y: int| #[trigger] (y % a) == 0 && x <= y ==> aligned(x, a) <= y,
{
    vstd::arithmetic::div_mod::lemma_fundamental_div_mod(x, a);
    vstd::arithmetic::div_mod::lemma_mod_bound(x, a);
    let k = x / a;
    assert(a * k == k * a) by (nonlinear_arith);
    assert((k + 1) * a == k * a + a) by (nonlinear_arith);
    vstd::arithmetic::div_mod::lemma_mod_multiples_basic(k + 1, a);
    assert forall|y: int| #[trigger] (y % a) == 0 && x <= y implies aligned(x, a) <= y by {
        vstd::arithmetic::div_mod::lemma_fundamental_div_mod(y, a);
        let m = y / a;
        assert(a * m == m * a) by (nonlinear_arith);
        if x % a != 0 && m < k + 1 {
            assert(m * a <= k * a) by (nonlinear_arith)
                requires
                    m <= k,
                    0 < a,
            ;
        }
        if m >= k + 1 {
            assert((k + 1) * a <= m * a) by (nonlinear_arith)
                requires
                    k + 1 <= m,
                    0 < a,
            ;
        }
    }
}

/// `x` rounded up to a multiple of `a`.
pub fn align_up(x: usize, a: usize) -> (y: usize)
    requires
        0 < a,
        aligned(x as int, a as int) <= usize::MAX,
    ensures
        y == aligned(x as int, a as int),
{
    proof {
        lemma_aligned(x as int, a as int);
        vstd::arithmetic::div_mod::lemma_fundamental_div_mod(x as int, a as int);
        let k = x as int / a as int;
        assert((k + 1) * a == k * a + a) by (nonlinear_arith);
        assert(a * k == k * a) by (nonlinear_arith);
        assert(k + 1 <= (k + 1) * a) by (nonlinear_arith)
            requires
                0 <= k,
                1 <= a,
        ;
    }
    if x % a == 0 {
        x
    } else {
        (x / a + 1) * a
    }
}

/// A string: the number of its bytes, and its bytes.
pub open spec fn string_bytes(s: Seq<char>) -> Seq<u8> {
    le_bytes(encode_utf8(s).len(), 8) + encode_utf8(s)
}

/// Append a string.
pub fn write_string(buf: &mut Vec<u8>, s: &str)
    ensures
        final(buf)@ == old(buf)@ + string_bytes(s@),
{
    let ghost before = buf@;
    let bytes = s.as_bytes();
    assert(bytes@.len() == bytes.len());
    push_le(buf, bytes.len() as u64, 8);
    append(buf, bytes);
    assert(buf@ =~= before + string_bytes(s@));
}

/// The first `n` strings, one after the other.
pub open spec fn strings_bytes(items: Seq<Seq<char>>, n: nat) -> Seq<u8>
    decreases n,
{
    if n == 0 {
        Seq::empty()
    } else {
        strings_bytes(items, (n - 1) as nat) + string_bytes(items[n - 1])
    }
}

/// The first `n` integers, four bytes each.
pub open spec fn ints_bytes(items: Seq<i32>, n: nat) -> Seq<u8>
    decreases n,
{
    if n == 0 {
        Seq::empty()
    } else {
        ints_bytes(items, (n - 1) as nat) + le_bytes((items[n - 1] as u32) as nat, 4)
    }
}

/// A metadata value: its type tag and its bytes. The tags are 4 for `u32`, 5 for
/// `i32`, 6 for a float, 7 for a boolean, 8 for a string and 9 for an array, on
/// which the tag and the number of its items follow.
pub open spec fn value_bytes(v: KvView) -> Seq<u8> {
    match v {
        KvView::U32(x) => le_bytes(4, 4) + le_bytes(x as nat, 4),
        KvView::F32(x) => le_bytes(6, 4) + le_bytes(x as nat, 4),
        KvView::Bool(b) => le_bytes(7, 4) + seq![
            if b {
                1u8
            } else {
                0u8
            },
        ],
        KvView::Str(s) => le_bytes(8, 4) + string_bytes(s),
        KvView::ArrStr(items) => le_bytes(9, 4) + le_bytes(8, 4) + le_bytes(items.len(), 8)
            + strings_bytes(items, items.len()),
        KvView::ArrI32(items) => le_bytes(9, 4) + le_bytes(5, 4) + le_bytes(items.len(), 8)
            + ints_bytes(items, items.len()),
    }
}

/// Append a metadata value.
pub fn write_value(buf: &mut Vec<u8>, v: &Kv)
    ensures
        final(buf)@ == old(buf)@ + value_bytes(v@),
{
    let ghost before = buf@;
    match v {
        Kv::U32(x) => {
            push_le(buf, 4, 4);
            push_le(buf, *x as u64, 4);
        },
        Kv::F32(x) => {
            push_le(buf, 6, 4);
            push_le(buf, *x as u64, 4);
        },
        Kv::Bool(b) => {
            push_le(buf, 7, 4);
            buf.push(
                if *b {
                    1u8
                } else {
                    0u8
                },
            );
        },
        Kv::Str(s) => {
            push_le(buf, 8, 4);
            write_string(buf, s.as_str());
        },
        Kv::ArrStr(items) => {
            push_le(buf, 9, 4);
            push_le(buf, 8, 4);
            assert(items@.len() == items.len());
            push_le(buf, items.len() as u64, 8);
            let ghost head = buf@;
            for i in 0..items.len()
                invariant
                    buf@ == head + strings_bytes(texts(items@), i as nat),
            {
                write_string(buf, items[i].as_str());
                proof {
                    let all = texts(items@);
                    assert(strings_bytes(all, i as nat + 1) == strings_bytes(all, i as nat)
                        + string_bytes(all[i as int]));
                    assert(buf@ =~= head + strings_bytes(all, i as nat + 1));
                }
            }
        },
        Kv::ArrI32(items) => {
            push_le(buf, 9, 4);
            push_le(buf, 5, 4);
            assert(items@.len() == items.len());
            push_le(buf, items.len() as u64, 8);
            let ghost head = buf@;
            for i in 0..items.len()
                invariant
                    buf@ == head + ints_bytes(items@, i as nat),
            {
                let x = #[verifier::truncate] (items[i] as u32);
                push_le(buf, x as u64, 4);
                proof {
                    assert(ints_bytes(items@, i as nat + 1) == ints_bytes(items@, i as nat)
                        + le_bytes((items@[i as int] as u32) as nat, 4));
                    assert(buf@ =~= head + ints_bytes(items@, i as nat + 1));
                }
            }
        },
    }
    assert(buf@ =~= before + value_bytes(v@));
}

/// What a writer has accumulated.
pub struct GgufView {
    pub kvs: Seq<(Seq<char>, KvView)>,
    pub tensors: Seq<TensorView>,
}

impl View for GgufWriter {
    type V = GgufView;

    open spec fn view(&self) -> GgufView {
        GgufView {
            kvs: Seq::new(self.kvs@.len(), |i: int| (self.kvs@[i].0@, self.kvs@[i].1@)),
            tensors: Seq::new(self.tensors@.len(), |i: int| self.tensors@[i]@),
        }
    }
}

/// The first `n` key/value pairs.
pub open spec fn kvs_bytes(kvs: Seq<(Seq<char>, KvView)>, n: nat) -> Seq<u8>
    decreases n,
{
    if n == 0 {
        Seq::empty()
    } else {
        kvs_bytes(kvs, (n - 1) as nat) + (string_bytes(kvs[n - 1].0) + value_bytes(kvs[n - 1].1))
    }
}

/// Where the data of tensor `i` starts in the data section: behind the tensor
/// before it, rounded up to the alignment.
pub open spec fn tensor_offset(tensors: Seq<TensorView>, i: nat) -> nat
    decreases i,
{
    if i == 0 {
        0
    } else {
        aligned(
            (tensor_offset(tensors, (i - 1) as nat) + tensors[i - 1].data.len()) as int,
            ALIGNMENT as int,
        ) as nat
    }
}

/// The first `n` dimensions, eight bytes each.
pub open spec fn dims_bytes(dims: Seq<u64>, n: nat) -> Seq<u8>
    decreases n,
{
    if n == 0 {
        Seq::empty()
    } else {
        dims_bytes(dims, (n - 1) as nat) + le_bytes(dims[n - 1] as nat, 8)
    }
}

/// The info of a tensor: its name, the number of its dimensions and these, the
/// type tag 0 for single-precision floats, and where its data starts.
pub open spec fn info_bytes(t: TensorView, offset: nat) -> Seq<u8> {
    string_bytes(t.name) + le_bytes(t.dims.len(), 4) + dims_bytes(t.dims, t.dims.len()) + le_bytes(
        0,
        4,
    ) + le_bytes(offset, 8)
}

/// The infos of the first `n` tensors.
pub open spec fn infos_bytes(tensors: Seq<TensorView>, n: nat) -> Seq<u8>
    decreases n,
{
    if n == 0 {
        Seq::empty()
    } else {
        infos_bytes(tensors, (n - 1) as nat) + info_bytes(
            tensors[n - 1],
            tensor_offset(tensors, (n - 1) as nat),
        )
    }
}

/// The header: the magic `GGUF`, the version 3, the number of tensors and the
/// number of key/value pairs.
pub open spec fn header_bytes(w: GgufView) -> Seq<u8> {
    seq![0x47u8, 0x47u8, 0x55u8, 0x46u8] + le_bytes(3, 4) + le_bytes(w.tensors.len(), 8) + le_bytes(
        w.kvs.len(),
        8,
    )
}

/// Everything in front of the padding of the data section.
pub open spec fn front_bytes(w: GgufView) -> Seq<u8> {
    header_bytes(w) + kvs_bytes(w.kvs, w.kvs.len()) + infos_bytes(w.tensors, w.tensors.len())
}

/// `n` zero bytes.
pub open spec fn zero_bytes(n: nat) -> Seq<u8> {
    Seq::new(n, |i: int| 0u8)
}

/// `s`, filled up with zero bytes to length `n`.
pub open spec fn padded(s: Seq<u8>, n: int) -> Seq<u8> {
    s + zero_bytes((n - s.len()) as nat)
}

/// The data of the first `n` tensors, each at its offset.
pub open spec fn data_bytes(tensors: Seq<TensorView>, n: nat) -> Seq<u8>
    decreases n,
{
    if n == 0 {
        Seq::empty()
    } else {
        padded(
            data_bytes(tensors, (n - 1) as nat),
            tensor_offset(tensors, (n - 1) as nat) as int,
        ) + tensors[n - 1].data
    }
}

/// Where the data section starts.
pub open spec fn data_start(w: GgufView) -> int {
    aligned(front_bytes(w).len() as int, ALIGNMENT as int)
}

/// The whole file.
pub open spec fn file_bytes(w: GgufView) -> Seq<u8> {
    padded(front_bytes(w), data_start(w)) + data_bytes(w.tensors, w.tensors.len())
}

/// Offsets are multiples of the alignment, and no tensor reaches into the next.
pub proof fn lemma_tensor_offsets(tensors: Seq<TensorView>, i: nat)
    requires
        i < tensors.len(),
    ensures
        tensor_offset(tensors, i) % (ALIGNMENT as nat) == 0,
        tensor_offset(tensors, i) + tensors[i as int].data.len() <= tensor_offset(tensors, i + 1),
    decreases i,
{
    if i > 0 {
        lemma_tensor_offsets(tensors, (i - 1) as nat);
        lemma_aligned(
            (tensor_offset(tensors, (i - 1) as nat) + tensors[i - 1].data.len()) as int,
            ALIGNMENT as int,
        );
    }
    lemma_aligned(
        (tensor_offset(tensors, i) + tensors[i as int].data.len()) as int,
        ALIGNMENT as int,
    );
}

/// The data section ends with the last tensor, and is no longer than the offset
/// behind it.
pub(crate) proof fn lemma_data_len(tensors: Seq<TensorView>, n: nat)
    requires
        n <= tensors.len(),
    ensures
        data_bytes(tensors, n).len() <= tensor_offset(tensors, n),
        n > 0 ==> data_bytes(tensors, n).len() == tensor_offset(tensors, (n - 1) as nat)
            + tensors[n - 1].data.len(),
    decreases n,
{
    if n > 0 {
        lemma_data_len(tensors, (n - 1) as nat);
        lemma_tensor_offsets(tensors, (n - 1) as nat);
    }
}

/// The data of tensor `i` stands at its offset in the data section.
proof fn lemma_data_at(tensors: Seq<TensorView>, n: nat, i: int)
    requires
        n <= tensors.len(),
        0 <= i < n,
    ensures
        tensor_offset(tensors, i as nat) + tensors[i].data.len() <= data_bytes(tensors, n).len(),
        data_bytes(tensors, n).subrange(
            tensor_offset(tensors, i as nat) as int,
            (tensor_offset(tensors, i as nat) + tensors[i].data.len()) as int,
        ) == tensors[i].data,
    decreases n,
{
    let off = tensor_offset(tensors, i as nat) as int;
    let end = off + tensors[i].data.len();
    lemma_data_len(tensors, (n - 1) as nat);
    if i == n - 1 {
        assert(data_bytes(tensors, n).subrange(off, end) =~= tensors[i].data);
    } else {
        lemma_data_at(tensors, (n - 1) as nat, i);
        assert(data_bytes(tensors, n).subrange(off, end) =~= data_bytes(
            tensors,
            (n - 1) as nat,
        ).subrange(off, end));
    }
}

/// A reader finds each tensor: its data stands in the file at the start of the
/// data section, which is aligned, plus the offset in its info, which is
/// aligned too.
pub proof fn lemma_tensor_found(w: GgufView, i: int)
    requires
        0 <= i < w.tensors.len(),
    ensures
        data_start(w) % (ALIGNMENT as int) == 0,
        tensor_offset(w.tensors, i as nat) % (ALIGNMENT as nat) == 0,
        ({
            let at = data_start(w) + tensor_offset(w.tensors, i as nat);
            let data = w.tensors[i].data;
            &&& at + data.len() <= file_bytes(w).len()
            &&& file_bytes(w).subrange(at, at + data.len()) == data
        }),
{
    lemma_aligned(front_bytes(w).len() as int, ALIGNMENT as int);
    lemma_tensor_offsets(w.tensors, i as nat);
    lemma_data_at(w.tensors, w.tensors.len(), i);
    let off = tensor_offset(w.tensors, i as nat) as int;
    let at = data_start(w) + off;
    let data = w.tensors[i].data;
    let section = data_bytes(w.tensors, w.tensors.len());
    assert(file_bytes(w).subrange(at, at + data.len()) =~= section.subrange(
        off,
        off + data.len(),
    ));
}

impl GgufWriter {
    /// Nothing yet.
    pub fn new() -> (w: Self)
        ensures
            w@.kvs.len() == 0,
            w@.tensors.len() == 0,
    {
        GgufWriter { kvs: Vec::new(), tensors: Vec::new() }
    }

    /// Add a key/value pair.
    fn push_kv(&mut self, k: &str, v: Kv)
        ensures
            final(self)@.kvs == old(self)@.kvs.push((k@, v@)),
            final(self)@.tensors == old(self)@.tensors,
    {
        let ghost before = self@;
        self.kvs.push((k.to_owned(), v));
        assert(self@.kvs =~= before.kvs.push((k@, v@)));
        assert(self@.tensors =~= before.tensors);
    }

    /// Add a `u32`.
    pub fn kv_u32(&mut self, k: &str, v: u32)
        ensures
            final(self)@.kvs == old(self)@.kvs.push((k@, KvView::U32(v))),
            final(self)@.tensors == old(self)@.tensors,
    {
        self.push_kv(k, Kv::U32(v));
    }

    /// Add a float.
    pub fn kv_f32<F: Single>(&mut self, k: &str, v: F)
        ensures
            exists|bits: u32| #[trigger]
                bits_are(v, bits) && final(self)@.kvs == old(self)@.kvs.push(
                    (k@, KvView::F32(bits)),
                ),
            final(self)@.tensors == old(self)@.tensors,
    {
        let bits = v.to_bits();
        self.push_kv(k, Kv::F32(bits));
    }

    /// Add a boolean.
    pub fn kv_bool(&mut self, k: &str, v: bool)
        ensures
            final(self)@.kvs == old(self)@.kvs.push((k@, KvView::Bool(v))),
            final(self)@.tensors == old(self)@.tensors,
    {
        self.push_kv(k, Kv::Bool(v));
    }

    /// Add a string.
    pub fn kv_str(&mut self, k: &str, v: &str)
        ensures
            final(self)@.kvs == old(self)@.kvs.push((k@, KvView::Str(v@))),
            final(self)@.tensors == old(self)@.tensors,
    {
        self.push_kv(k, Kv::Str(v.to_owned()));
    }

    /// Add an array of strings.
    pub fn kv_arr_str(&mut self, k: &str, v: Vec<String>)
        ensures
            final(self)@.kvs == old(self)@.kvs.push((k@, KvView::ArrStr(texts(v@)))),
            final(self)@.tensors == old(self)@.tensors,
    {
        self.push_kv(k, Kv::ArrStr(v));
    }

    /// Add an array of integers.
    pub fn kv_arr_i32(&mut self, k: &str, v: Vec<i32>)
        ensures
            final(self)@.kvs == old(self)@.kvs.push((k@, KvView::ArrI32(v@))),
            final(self)@.tensors == old(self)@.tensors,
    {
        self.push_kv(k, Kv::ArrI32(v));
    }

    /// Add a tensor. The dimensions come innermost first: for a row-major
    /// `[rows, cols]` weight, `[cols, rows]` and the row-major data.
    pub fn add_tensor<F: Single>(&mut self, name: &str, dims: Vec<u64>, data: &[F])
        ensures
            final(self)@.kvs == old(self)@.kvs,
            exists|bytes: Seq<u8>| #[trigger]
                checkpoint_is(data@, bytes) && final(self)@.tensors == old(self)@.tensors.push(
                    (TensorView { name: name@, dims: dims@, data: bytes }),
                ),
    {
        let ghost before = self@;
        let bytes = checkpoint(data);
        let ghost t = TensorView { name: name@, dims: dims@, data: bytes@ };
        self.tensors.push(Tensor { name: name.to_owned(), dims, data: bytes });
        assert(self@.kvs =~= before.kvs);
        assert(self@.tensors =~= before.tensors.push(t));
    }

    /// The GGUF file that holds all metadata and tensors.
    pub fn write(&self) -> (buf: Vec<u8>)
        requires
            data_start(self@) + tensor_offset(self@.tensors, self@.tensors.len()) <= usize::MAX,
        ensures
            buf@ == file_bytes(self@),
    {
        let ghost w = self@;
        let mut buf: Vec<u8> = Vec::new();
        buf.push(0x47u8);
        buf.push(0x47u8);
        buf.push(0x55u8);
        buf.push(0x46u8);
        push_le(&mut buf, 3, 4);
        assert(self.tensors@.len() == self.tensors.len());
        assert(self.kvs@.len() == self.kvs.len());
        push_le(&mut buf, self.tensors.len() as u64, 8);
        push_le(&mut buf, self.kvs.len() as u64, 8);
        assert(buf@ =~= header_bytes(w));
        for i in 0..self.kvs.len()
            invariant
                w == self@,
                buf@ == header_bytes(w) + kvs_bytes(w.kvs, i as nat),
        {
            write_string(&mut buf, self.kvs[i].0.as_str());
            write_value(&mut buf, &self.kvs[i].1);
            proof {
                assert(w.kvs[i as int] == (self.kvs@[i as int].0@, self.kvs@[i as int].1@));
                assert(buf@ =~= header_bytes(w) + kvs_bytes(w.kvs, i as nat + 1));
            }
        }
        let offsets = self.offsets();
        let ghost head = buf@;
        for i in 0..self.tensors.len()
            invariant
                w == self@,
                offsets@.len() == self.tensors@.len(),
                forall|k: int|
                    0 <= k < offsets@.len() ==> #[trigger] offsets@[k] == tensor_offset(
                        w.tensors,
                        k as nat,
                    ),
                buf@ == head + infos_bytes(w.tensors, i as nat),
        {
            let t = &self.tensors[i];
            let ghost mid = buf@;
            write_info(&mut buf, t, offsets[i] as u64);
            proof {
                assert(w.tensors[i as int] == t@);
                assert(buf@ =~= head + infos_bytes(w.tensors, i as nat + 1));
            }
        }
        assert(buf@ =~= front_bytes(w));
        proof {
            lemma_aligned(buf@.len() as int, ALIGNMENT as int);
            assert(buf@.len() == buf.len());
        }
        let start = align_up(buf.len(), ALIGNMENT);
        pad_to(&mut buf, start);
        let ghost front = buf@;
        for i in 0..self.tensors.len()
            invariant
                w == self@,
                front.len() == start,
                start + tensor_offset(w.tensors, w.tensors.len()) <= usize::MAX,
                offsets@.len() == self.tensors@.len(),
                forall|k: int|
                    0 <= k < offsets@.len() ==> #[trigger] offsets@[k] == tensor_offset(
                        w.tensors,
                        k as nat,
                    ),
                buf@ == front + data_bytes(w.tensors, i as nat),
        {
            proof {
                lemma_offset_grows(w.tensors, i as nat, w.tensors.len());
                lemma_data_len(w.tensors, i as nat);
                assert(w.tensors[i as int] == self.tensors@[i as int]@);
            }
            let ghost mid = buf@;
            pad_to(&mut buf, start + offsets[i]);
            append(&mut buf, self.tensors[i].data.as_slice());
            proof {
                let done = data_bytes(w.tensors, i as nat);
                let off = tensor_offset(w.tensors, i as nat) as int;
                assert(padded(mid, start + off) =~= front + padded(done, off));
                assert(buf@ =~= front + data_bytes(w.tensors, i as nat + 1));
            }
        }
        buf
    }

    /// Where the data of each tensor starts in the data section.
    fn offsets(&self) -> (offsets: Vec<usize>)
        requires
            tensor_offset(self@.tensors, self@.tensors.len()) <= usize::MAX,
        ensures
            offsets@.len() == self.tensors@.len(),
            forall|k: int|
                0 <= k < offsets@.len() ==> #[trigger] offsets@[k] == tensor_offset(
                    self@.tensors,
                    k as nat,
                ),
    {
        let ghost w = self@;
        let mut offsets: Vec<usize> = Vec::with_capacity(self.tensors.len());
        let mut off: usize = 0;
        for i in 0..self.tensors.len()
            invariant
                w == self@,
                tensor_offset(w.tensors, w.tensors.len()) <= usize::MAX,
                off == tensor_offset(w.tensors, i as nat),
                offsets@.len() == i,
                forall|k: int|
                    0 <= k < i ==> #[trigger] offsets@[k] == tensor_offset(w.tensors, k as nat),
        {
            offsets.push(off);
            proof {
                assert(w.tensors[i as int] == self.tensors@[i as int]@);
                lemma_tensor_offsets(w.tensors, i as nat);
                lemma_offset_grows(w.tensors, i as nat + 1, w.tensors.len());
            }
            off = align_up(off + self.tensors[i].data.len(), ALIGNMENT);
        }
        offsets
    }
}

/// Later tensors start further behind.
proof fn lemma_offset_grows(tensors: Seq<TensorView>, i: nat, n: nat)
    requires
        i <= n <= tensors.len(),
    ensures
        tensor_offset(tensors, i) <= tensor_offset(tensors, n),
    decreases n - i,
{
    if i < n {
        lemma_tensor_offsets(tensors, i);
        lemma_offset_grows(tensors, i + 1, n);
    }
}

/// Append the info of a tensor.
fn write_info(buf: &mut Vec<u8>, t: &Tensor, offset: u64)
    ensures
        final(buf)@ == old(buf)@ + info_bytes(t@, offset as nat),
{
    let ghost before = buf@;
    write_string(buf, t.name.as_str());
    assert(t.dims@.len() == t.dims.len());
    push_le(buf, t.dims.len() as u64, 4);
    let ghost head = buf@;
    for i in 0..t.dims.len()
        invariant
            buf@ == head + dims_bytes(t.dims@, i as nat),
    {
        push_le(buf, t.dims[i], 8);
        assert(buf@ =~= head + dims_bytes(t.dims@, i as nat + 1));
    }
    push_le(buf, 0, 4);
    push_le(buf, offset, 8);
    assert(buf@ =~= before + info_bytes(t@, offset as nat));
}

/// Fill up with zero bytes to length `n`.
fn pad_to(buf: &mut Vec<u8>, n: usize)
    requires
        old(buf)@.len() <= n,
    ensures
        final(buf)@ == padded(old(buf)@, n as int),
{
    let ghost before = buf@;
    assert(padded(before, before.len() as int) =~= before);
    while buf.len() < n
        invariant
            before.len() <= buf@.len() <= n,
            buf@ == padded(before, buf@.len() as int),
        decreases n - buf@.len(),
    {
        let ghost mid = buf@;
        buf.push(0);
        assert(buf@ =~= padded(before, (mid.len() + 1) as int));
    }
}

} // verus!
