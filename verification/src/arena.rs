//! Tensors inside one flat buffer: where they lie, what a write to one leaves
//! of the others, and how disjoint ones are lent out together.

use rayon::prelude::IntoParallelIterator;
use rayon::prelude::ParallelIterator;
use vstd::prelude::*;

verus! {

/// The `n` values of `s` from `off` on.
pub open spec fn tensor<T>(s: Seq<T>, off: int, n: int) -> Seq<T> {
    s.subrange(off, off + n)
}

/// Row `r` of a row-major matrix with rows of `c` values.
pub open spec fn row<T>(s: Seq<T>, r: int, c: int) -> Seq<T> {
    s.subrange(r * c, r * c + c)
}

/// `i` lies in the `n` places from `off` on.
pub open spec fn within(i: int, off: int, n: int) -> bool {
    off <= i < off + n
}

/// The spans `[a, a + m)` and `[b, b + n)` share no place.
pub open spec fn apart(a: int, m: int, b: int, n: int) -> bool {
    a + m <= b || b + n <= a
}

/// `new` is `old` except in the `n` places from `off` on.
pub open spec fn only_changed<T>(old_s: Seq<T>, new_s: Seq<T>, off: int, n: int) -> bool {
    &&& new_s.len() == old_s.len()
    &&& forall|i: int| 0 <= i < old_s.len() && !within(i, off, n) ==> new_s[i] == old_s[i]
}

/// A tensor apart from the changed one is what it was.
pub broadcast proof fn lemma_kept<T>(old_s: Seq<T>, new_s: Seq<T>, off: int, n: int, o: int, m: int)
    requires
        #[trigger] only_changed(old_s, new_s, off, n),
        0 <= o,
        0 <= m,
        o + m <= old_s.len(),
        apart(off, n, o, m),
    ensures
        #[trigger] tensor(new_s, o, m) == tensor(old_s, o, m),
{
    assert(tensor(new_s, o, m) =~= tensor(old_s, o, m));
}

/// `new` is `old` except in two spans.
pub open spec fn only_changed2<T>(
    old_s: Seq<T>,
    new_s: Seq<T>,
    off1: int,
    n1: int,
    off2: int,
    n2: int,
) -> bool {
    &&& new_s.len() == old_s.len()
    &&& forall|i: int|
        0 <= i < old_s.len() && !within(i, off1, n1) && !within(i, off2, n2) ==> new_s[i]
            == old_s[i]
}

/// A tensor apart from both changed spans is what it was.
pub broadcast proof fn lemma_kept2<T>(
    old_s: Seq<T>,
    new_s: Seq<T>,
    off1: int,
    n1: int,
    off2: int,
    n2: int,
    o: int,
    m: int,
)
    requires
        #[trigger] only_changed2(old_s, new_s, off1, n1, off2, n2),
        0 <= o,
        0 <= m,
        o + m <= old_s.len(),
        apart(off1, n1, o, m),
        apart(off2, n2, o, m),
    ensures
        #[trigger] tensor(new_s, o, m) == tensor(old_s, o, m),
{
    assert(tensor(new_s, o, m) =~= tensor(old_s, o, m));
}

/// `new` is `old` except in three spans.
pub open spec fn only_changed3<T>(
    old_s: Seq<T>,
    new_s: Seq<T>,
    off1: int,
    n1: int,
    off2: int,
    n2: int,
    off3: int,
    n3: int,
) -> bool {
    &&& new_s.len() == old_s.len()
    &&& forall|i: int|
        0 <= i < old_s.len() && !within(i, off1, n1) && !within(i, off2, n2) && !within(
            i,
            off3,
            n3,
        ) ==> new_s[i] == old_s[i]
}

/// A tensor apart from all three changed spans is what it was.
pub broadcast proof fn lemma_kept3<T>(
    old_s: Seq<T>,
    new_s: Seq<T>,
    off1: int,
    n1: int,
    off2: int,
    n2: int,
    off3: int,
    n3: int,
    o: int,
    m: int,
)
    requires
        #[trigger] only_changed3(old_s, new_s, off1, n1, off2, n2, off3, n3),
        0 <= o,
        0 <= m,
        o + m <= old_s.len(),
        apart(off1, n1, o, m),
        apart(off2, n2, o, m),
        apart(off3, n3, o, m),
    ensures
        #[trigger] tensor(new_s, o, m) == tensor(old_s, o, m),
{
    assert(tensor(new_s, o, m) =~= tensor(old_s, o, m));
}

pub broadcast group group_kept {
    lemma_kept,
    lemma_kept2,
    lemma_kept3,
}

/// Row `r` of `n` lies inside the matrix.
pub proof fn lemma_row_bounds(r: int, n: int, c: int)
    requires
        0 <= r < n,
        0 <= c,
    ensures
        0 <= r * c,
        r * c + c == (r + 1) * c,
        r * c + c <= n * c,
{
    assert(r * c + c == (r + 1) * c) by (nonlinear_arith);
    assert((r + 1) * c <= n * c) by (nonlinear_arith)
        requires
            r + 1 <= n,
            0 <= c,
    ;
    assert(0 <= r * c) by (nonlinear_arith)
        requires
            0 <= r,
            0 <= c,
    ;
}

/// Two rows of one matrix share no place.
pub proof fn lemma_rows_apart(r: int, q: int, c: int)
    requires
        0 <= r < q,
        0 <= c,
    ensures
        r * c + c <= q * c,
{
    assert(r * c + c <= q * c) by (nonlinear_arith)
        requires
            r + 1 <= q,
            0 <= c,
    ;
}

/// Row `r` of a matrix of `n` rows of `c` values.
pub fn row_of<T>(s: &[T], r: usize, n: usize, c: usize) -> (x: &[T])
    requires
        r < n,
        n * c <= s@.len(),
    ensures
        x@ == row(s@, r as int, c as int),
        x@.len() == c,
{
    proof {
        lemma_row_bounds(r as int, n as int, c as int);
        assert(s@.len() == s.len());
    }
    &s[r * c..r * c + c]
}

/// A copy of `s`.
pub fn copied<T: Copy>(s: &[T]) -> (v: Vec<T>)
    ensures
        v@ == s@,
{
    let mut v: Vec<T> = Vec::with_capacity(s.len());
    for i in 0..s.len()
        invariant
            v@ == s@.subrange(0, i as int),
    {
        v.push(s[i]);
        assert(v@ =~= s@.subrange(0, i + 1));
    }
    assert(s@.subrange(0, s@.len() as int) =~= s@);
    v
}

/// Write `src` into `buf` from `off` on.
pub fn store<T: Copy>(buf: &mut [T], off: usize, src: &[T])
    requires
        off + src.len() <= old(buf).len(),
    ensures
        only_changed(old(buf)@, final(buf)@, off as int, src@.len() as int),
        tensor(final(buf)@, off as int, src@.len() as int) == src@,
{
    let ghost before = buf@;
    for i in 0..src.len()
        invariant
            off + src.len() <= buf.len(),
            buf@.len() == before.len(),
            only_changed(before, buf@, off as int, i as int),
            forall|k: int| off <= k < off + i ==> #[trigger] buf@[k] == src@[k - off],
    {
        buf[off + i] = src[i];
    }
    assert(tensor(buf@, off as int, src@.len() as int) =~= src@);
}

/// Append the values of `src` to `v`.
pub fn append<T: Copy>(v: &mut Vec<T>, src: &[T])
    ensures
        final(v)@ == old(v)@ + src@,
{
    let ghost before = v@;
    for i in 0..src.len()
        invariant
            v@ == before + src@.subrange(0, i as int),
    {
        v.push(src[i]);
        assert(v@ =~= before + src@.subrange(0, i + 1));
    }
    assert(src@.subrange(0, src@.len() as int) =~= src@);
}

/// The rows one after the other.
pub fn flatten<T: Copy>(rows: &Vec<Vec<T>>, c: usize) -> (v: Vec<T>)
    requires
        forall|r: int| 0 <= r < rows@.len() ==> #[trigger] rows@[r]@.len() == c,
    ensures
        v@.len() == rows@.len() * c,
        forall|r: int| 0 <= r < rows@.len() ==> #[trigger] row(v@, r, c as int) == rows@[r]@,
{
    let mut v: Vec<T> = Vec::new();
    assert(0 * c == 0) by (nonlinear_arith);
    for r in 0..rows.len()
        invariant
            forall|q: int| 0 <= q < rows@.len() ==> #[trigger] rows@[q]@.len() == c,
            v@.len() == r * c,
            forall|q: int| 0 <= q < r ==> #[trigger] row(v@, q, c as int) == rows@[q]@,
    {
        let ghost before = v@;
        append(&mut v, rows[r].as_slice());
        proof {
            lemma_row_bounds(r as int, r + 1, c as int);
            assert forall|q: int| 0 <= q < r + 1 implies #[trigger] row(v@, q, c as int)
                == rows@[q]@ by {
                if q < r {
                    lemma_rows_apart(q, r as int, c as int);
                    lemma_row_bounds(q, r as int, c as int);
                    assert(row(v@, q, c as int) =~= row(before, q, c as int));
                } else {
                    assert(row(v@, q, c as int) =~= rows@[q]@);
                }
            }
        }
    }
    v
}

/// The first, the second and the third parts, each by itself.
pub fn split3<T: Copy>(parts: &Vec<(Vec<T>, Vec<T>, Vec<T>)>) -> (res: (
    Vec<Vec<T>>,
    Vec<Vec<T>>,
    Vec<Vec<T>>,
))
    ensures
        res.0@.len() == parts@.len(),
        res.1@.len() == parts@.len(),
        res.2@.len() == parts@.len(),
        forall|i: int| 0 <= i < parts@.len() ==> (#[trigger] res.0@[i])@ == parts@[i].0@,
        forall|i: int| 0 <= i < parts@.len() ==> (#[trigger] res.1@[i])@ == parts@[i].1@,
        forall|i: int| 0 <= i < parts@.len() ==> (#[trigger] res.2@[i])@ == parts@[i].2@,
{
    let mut a: Vec<Vec<T>> = Vec::with_capacity(parts.len());
    let mut b: Vec<Vec<T>> = Vec::with_capacity(parts.len());
    let mut c: Vec<Vec<T>> = Vec::with_capacity(parts.len());
    for i in 0..parts.len()
        invariant
            a@.len() == i,
            b@.len() == i,
            c@.len() == i,
            forall|j: int| 0 <= j < i ==> (#[trigger] a@[j])@ == parts@[j].0@,
            forall|j: int| 0 <= j < i ==> (#[trigger] b@[j])@ == parts@[j].1@,
            forall|j: int| 0 <= j < i ==> (#[trigger] c@[j])@ == parts@[j].2@,
    {
        a.push(copied(parts[i].0.as_slice()));
        b.push(copied(parts[i].1.as_slice()));
        c.push(copied(parts[i].2.as_slice()));
    }
    (a, b, c)
}

/// `f(0), f(1), .., f(n - 1)`, computed in parallel.
///
/// The outside calls are rayon's `into_par_iter` on a range, `map` and
/// `collect`. Claimed of them: the vector has one entry for each index, in the
/// order of the indices, and each entry is what `f` gave back for its index.
#[verifier::external_body]
pub(crate) fn par_map<T: Send, G: Fn(usize) -> T + Sync + Send>(n: usize, f: G) -> (v: Vec<T>)
    requires
        forall|i: usize| i < n ==> #[trigger] call_requires(f, (i,)),
    ensures
        v@.len() == n,
        forall|i: int| 0 <= i < n ==> call_ensures(f, (i as usize,), #[trigger] v@[i]),
{
    (0..n).into_par_iter().map(f).collect()
}

/// `s` with `t` written over the places from `off` on.
pub open spec fn patch<T>(s: Seq<T>, off: int, t: Seq<T>) -> Seq<T> {
    s.subrange(0, off) + t + s.subrange(off + t.len(), s.len() as int)
}

/// Split two disjoint spans out of one buffer, in either order: the span
/// `(a_off, a_len)` first, then `(b_off, b_len)`.
pub fn disjoint_mut<T>(
    buf: &mut [T],
    a_off: usize,
    a_len: usize,
    b_off: usize,
    b_len: usize,
) -> (res: (&mut [T], &mut [T]))
    requires
        apart(a_off as int, a_len as int, b_off as int, b_len as int),
        a_off + a_len <= old(buf).len(),
        b_off + b_len <= old(buf).len(),
    ensures
        res.0@ == tensor(old(buf)@, a_off as int, a_len as int),
        res.1@ == tensor(old(buf)@, b_off as int, b_len as int),
        final(res.0)@.len() == a_len && final(res.1)@.len() == b_len ==> final(buf)@ == patch(
            patch(old(buf)@, a_off as int, final(res.0)@),
            b_off as int,
            final(res.1)@,
        ),
{
    if a_off + a_len <= b_off {
        let (left, right) = buf.split_at_mut(b_off);
        let (_, tail) = left.split_at_mut(a_off);
        let (a, _) = tail.split_at_mut(a_len);
        let (b, _) = right.split_at_mut(b_len);
        (a, b)
    } else {
        let (left, right) = buf.split_at_mut(a_off);
        let (_, tail) = left.split_at_mut(b_off);
        let (b, _) = tail.split_at_mut(b_len);
        let (a, _) = right.split_at_mut(a_len);
        (a, b)
    }
}

/// `new` is `old` with four parts written over it, each at its offset, in
/// ascending order and without overlap.
#[verifier::opaque]
pub open spec fn four_parts_are<T>(
    old_s: Seq<T>,
    new_s: Seq<T>,
    p0: (int, Seq<T>),
    p1: (int, Seq<T>),
    p2: (int, Seq<T>),
    p3: (int, Seq<T>),
) -> bool {
    new_s =~= old_s.subrange(0, p0.0) + (p0.1 + (old_s.subrange(p0.0 + p0.1.len(), p1.0) + (p1.1 + (
    old_s.subrange(p1.0 + p1.1.len(), p2.0) + (p2.1 + (old_s.subrange(p2.0 + p2.1.len(), p3.0) + (
    p3.1 + old_s.subrange(p3.0 + p3.1.len(), old_s.len() as int))))))))
}

/// Each part is found at its offset, and the first one leaves what was there
/// where it is that.
pub proof fn lemma_four_parts<T>(
    old_s: Seq<T>,
    new_s: Seq<T>,
    p0: (int, Seq<T>),
    p1: (int, Seq<T>),
    p2: (int, Seq<T>),
    p3: (int, Seq<T>),
)
    requires
        four_parts_are(old_s, new_s, p0, p1, p2, p3),
        0 <= p0.0,
        p0.0 + p0.1.len() <= p1.0,
        p1.0 + p1.1.len() <= p2.0,
        p2.0 + p2.1.len() <= p3.0,
        p3.0 + p3.1.len() <= old_s.len(),
    ensures
        new_s.len() == old_s.len(),
        tensor(new_s, p0.0, p0.1.len() as int) == p0.1,
        tensor(new_s, p1.0, p1.1.len() as int) == p1.1,
        tensor(new_s, p2.0, p2.1.len() as int) == p2.1,
        tensor(new_s, p3.0, p3.1.len() as int) == p3.1,
        forall|i: int|
            0 <= i < old_s.len() && !within(i, p0.0, p0.1.len() as int) && !within(
                i,
                p1.0,
                p1.1.len() as int,
            ) && !within(i, p2.0, p2.1.len() as int) && !within(i, p3.0, p3.1.len() as int)
                ==> new_s[i] == old_s[i],
{
    reveal(four_parts_are);
    assert(tensor(new_s, p0.0, p0.1.len() as int) =~= p0.1);
    assert(tensor(new_s, p1.0, p1.1.len() as int) =~= p1.1);
    assert(tensor(new_s, p2.0, p2.1.len() as int) =~= p2.1);
    assert(tensor(new_s, p3.0, p3.1.len() as int) =~= p3.1);
}

/// Where one of four parts is what it was, only the three others changed.
pub proof fn lemma_three_changed<T>(
    old_s: Seq<T>,
    new_s: Seq<T>,
    keep: (int, int),
    a: (int, int),
    b: (int, int),
    c: (int, int),
)
    requires
        new_s.len() == old_s.len(),
        0 <= keep.0,
        0 <= keep.1,
        keep.0 + keep.1 <= old_s.len(),
        tensor(new_s, keep.0, keep.1) == tensor(old_s, keep.0, keep.1),
        forall|i: int|
            0 <= i < old_s.len() && !within(i, keep.0, keep.1) && !within(i, a.0, a.1) && !within(
                i,
                b.0,
                b.1,
            ) && !within(i, c.0, c.1) ==> new_s[i] == old_s[i],
    ensures
        only_changed3(old_s, new_s, a.0, a.1, b.0, b.1, c.0, c.1),
{
    assert forall|i: int|
        0 <= i < old_s.len() && !within(i, a.0, a.1) && !within(i, b.0, b.1) && !within(
            i,
            c.0,
            c.1,
        ) implies new_s[i] == old_s[i] by {
        if within(i, keep.0, keep.1) {
            assert(tensor(new_s, keep.0, keep.1)[i - keep.0] == new_s[i]);
            assert(tensor(old_s, keep.0, keep.1)[i - keep.0] == old_s[i]);
        }
    }
}

/// Split four spans out of one buffer, given in ascending order and without
/// overlap.
pub fn four_disjoint_mut<T>(
    buf: &mut [T],
    o0: usize,
    l0: usize,
    o1: usize,
    l1: usize,
    o2: usize,
    l2: usize,
    o3: usize,
    l3: usize,
) -> (res: (&mut [T], &mut [T], &mut [T], &mut [T]))
    requires
        o0 + l0 <= o1,
        o1 + l1 <= o2,
        o2 + l2 <= o3,
        o3 + l3 <= old(buf).len(),
    ensures
        res.0@ == tensor(old(buf)@, o0 as int, l0 as int),
        res.1@ == tensor(old(buf)@, o1 as int, l1 as int),
        res.2@ == tensor(old(buf)@, o2 as int, l2 as int),
        res.3@ == tensor(old(buf)@, o3 as int, l3 as int),
        final(res.0)@.len() == l0 && final(res.1)@.len() == l1 && final(res.2)@.len() == l2
            && final(res.3)@.len() == l3 ==> four_parts_are(
            old(buf)@,
            final(buf)@,
            (o0 as int, final(res.0)@),
            (o1 as int, final(res.1)@),
            (o2 as int, final(res.2)@),
            (o3 as int, final(res.3)@),
        ),
{
    let ghost all = buf@;
    let ghost n = all.len() as int;
    proof {
        reveal(four_parts_are);
        let r0 = all.subrange(o0 + l0, n);
        let r1 = all.subrange(o1 + l1, n);
        let r2 = all.subrange(o2 + l2, n);
        assert(r0.subrange(0, o1 - (o0 + l0)) =~= all.subrange(o0 + l0, o1 as int));
        assert(r1.subrange(0, o2 - (o1 + l1)) =~= all.subrange(o1 + l1, o2 as int));
        assert(r2.subrange(0, o3 - (o2 + l2)) =~= all.subrange(o2 + l2, o3 as int));
        assert(r0.subrange(o1 + l1 - (o0 + l0), r0.len() as int) =~= r1);
        assert(r1.subrange(o2 + l2 - (o1 + l1), r1.len() as int) =~= r2);
        assert(r2.subrange(o3 + l3 - (o2 + l2), r2.len() as int) =~= all.subrange(o3 + l3, n));
        assert(tensor(r0, o1 - (o0 + l0), l1 as int) =~= tensor(all, o1 as int, l1 as int));
        assert(tensor(r1, o2 - (o1 + l1), l2 as int) =~= tensor(all, o2 as int, l2 as int));
        assert(tensor(r2, o3 - (o2 + l2), l3 as int) =~= tensor(all, o3 as int, l3 as int));
    }
    let (s0, rest) = carve(buf, o0, l0);
    let (s1, rest) = carve(rest, o1 - (o0 + l0), l1);
    let (s2, rest) = carve(rest, o2 - (o1 + l1), l2);
    let (s3, _) = carve(rest, o3 - (o2 + l2), l3);
    (s0, s1, s2, s3)
}

/// Split the span `(off, len)` out of a buffer, and what lies behind it.
fn carve<T>(buf: &mut [T], off: usize, len: usize) -> (res: (&mut [T], &mut [T]))
    requires
        off + len <= old(buf).len(),
    ensures
        res.0@ == tensor(old(buf)@, off as int, len as int),
        res.1@ == old(buf)@.subrange(off + len, old(buf)@.len() as int),
        final(res.0)@.len() == len && final(res.1)@.len() == old(buf)@.len() - (off + len)
            ==> final(buf)@ == old(buf)@.subrange(0, off as int) + (final(res.0)@ + final(res.1)@),
{
    let (_, rest) = buf.split_at_mut(off);
    rest.split_at_mut(len)
}

/// Entry `i` of row `r` is found again by division.
pub proof fn lemma_slot(r: int, i: int, n: int, c: int)
    requires
        0 <= r < n,
        0 <= i < c,
    ensures
        0 <= r * c + i < n * c,
        (r * c + i) / c == r,
        (r * c + i) % c == i,
{
    lemma_row_bounds(r, n, c);
    vstd::arithmetic::div_mod::lemma_fundamental_div_mod_converse(r * c + i, c, r, i);
}

/// Every place of a matrix lies in a row.
pub proof fn lemma_unslot(p: int, n: int, c: int)
    requires
        0 <= p < n * c,
        0 < c,
    ensures
        0 <= p / c < n,
        0 <= p % c < c,
        (p / c) * c + p % c == p,
{
    vstd::arithmetic::div_mod::lemma_fundamental_div_mod(p, c);
    assert((p / c) * c == c * (p / c)) by (nonlinear_arith);
    vstd::arithmetic::div_mod::lemma_mod_bound(p, c);
    assert(0 <= p / c) by (nonlinear_arith)
        requires
            0 <= p,
            0 < c,
    ;
    if p / c >= n {
        assert(n * c <= (p / c) * c) by (nonlinear_arith)
            requires
                n <= p / c,
                0 < c,
        ;
    }
}

} // verus!
