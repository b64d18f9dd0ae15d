//! Little-endian numbers as bytes.

use vstd::arithmetic::power::pow;
use vstd::prelude::*;

verus! {

/// The `n` low bytes of `x`, the lowest first.
pub open spec fn le_bytes(x: nat, n: nat) -> Seq<u8>
    decreases n,
{
    if n == 0 {
        Seq::empty()
    } else {
        seq![(x % 256) as u8] + le_bytes(x / 256, (n - 1) as nat)
    }
}

/// The number whose bytes are `s`, the lowest first.
pub open spec fn le_value(s: Seq<u8>) -> nat
    decreases s.len(),
{
    if s.len() == 0 {
        0
    } else {
        s[0] as nat + 256 * le_value(s.subrange(1, s.len() as int))
    }
}

/// The number of values that `n` bytes can tell apart.
pub open spec fn byte_range(n: nat) -> nat
    decreases n,
{
    if n == 0 {
        1
    } else {
        256 * byte_range((n - 1) as nat)
    }
}

/// `le_bytes` gives as many bytes as it was asked for.
pub proof fn lemma_le_bytes_len(x: nat, n: nat)
    ensures
        le_bytes(x, n).len() == n,
    decreases n,
{
    if n > 0 {
        lemma_le_bytes_len(x / 256, (n - 1) as nat);
    }
}

/// Byte `k` is the digit of `256^k` of the number.
pub proof fn lemma_le_bytes_digits(x: nat, n: nat, k: nat)
    requires
        k < n,
    ensures
        le_bytes(x, n).len() == n,
        le_bytes(x, n)[k as int] as int == (x as int / pow(256, k)) % 256,
    decreases n,
{
    lemma_le_bytes_len(x, n);
    reveal(pow);
    if k > 0 {
        lemma_le_bytes_digits(x / 256, (n - 1) as nat, (k - 1) as nat);
        lemma_le_bytes_len(x / 256, (n - 1) as nat);
        let p = pow(256, (k - 1) as nat);
        vstd::arithmetic::power::lemma_pow_positive(256, (k - 1) as nat);
        assert(pow(256, k) == 256 * p);
        vstd::arithmetic::div_mod::lemma_div_denominator(x as int, 256, p);
    }
}

/// A number that fits in `n` bytes is read back from them.
pub proof fn lemma_le_round_trip(x: nat, n: nat)
    requires
        x < byte_range(n),
    ensures
        le_value(le_bytes(x, n)) == x,
    decreases n,
{
    if n > 0 {
        let rest = le_bytes(x / 256, (n - 1) as nat);
        let all = le_bytes(x, n);
        assert(x / 256 < byte_range((n - 1) as nat));
        lemma_le_round_trip(x / 256, (n - 1) as nat);
        assert(all.subrange(1, all.len() as int) =~= rest);
        assert(all[0] as nat == x % 256);
    }
}

/// Bytes are written again as they were read.
pub proof fn lemma_le_bytes_again(s: Seq<u8>)
    ensures
        le_bytes(le_value(s), s.len()) == s,
        le_value(s) < byte_range(s.len()),
    decreases s.len(),
{
    if s.len() > 0 {
        let rest = s.subrange(1, s.len() as int);
        lemma_le_bytes_again(rest);
        assert(le_value(s) % 256 == s[0]);
        assert(le_value(s) / 256 == le_value(rest));
        assert(seq![s[0]] + rest =~= s);
    }
}

/// What two, four and eight bytes can hold.
pub proof fn lemma_byte_ranges()
    ensures
        byte_range(2) == 0x1_0000,
        byte_range(4) == 0x1_0000_0000,
        byte_range(8) == 0x1_0000_0000_0000_0000,
{
    reveal_with_fuel(byte_range, 9);
}

/// Append the `n` low bytes of `x`, the lowest first.
pub fn push_le(out: &mut Vec<u8>, x: u64, n: usize)
    ensures
        final(out)@ == old(out)@ + le_bytes(x as nat, n as nat),
{
    let ghost before = out@;
    let mut rest: u64 = x;
    for i in 0..n
        invariant
            out@ + le_bytes(rest as nat, (n - i) as nat) == before + le_bytes(x as nat, n as nat),
    {
        let ghost head = out@;
        let ghost tail = le_bytes((rest / 256) as nat, (n - i - 1) as nat);
        out.push((rest % 256) as u8);
        proof {
            assert(le_bytes(rest as nat, (n - i) as nat) == seq![(rest % 256) as u8] + tail);
            assert(out@ + tail =~= head + (seq![(rest % 256) as u8] + tail));
        }
        rest = rest / 256;
    }
    assert(out@ + le_bytes(rest as nat, 0) =~= out@);
}

/// The number whose bytes are `s`, the lowest first.
pub fn read_le(s: &[u8]) -> (x: u64)
    requires
        s@.len() <= 8,
    ensures
        x == le_value(s@),
        x < byte_range(s@.len()),
{
    let mut x: u64 = 0;
    let mut i: usize = s.len();
    proof {
        assert(s@.subrange(s@.len() as int, s@.len() as int).len() == 0);
        assert(byte_range(0) == 1);
    }
    while i > 0
        invariant
            i <= s@.len(),
            s@.len() <= 8,
            x == le_value(s@.subrange(i as int, s@.len() as int)),
            x < byte_range((s@.len() - i) as nat),
        decreases i,
    {
        let ghost tail = s@.subrange(i as int, s@.len() as int);
        let ghost more = s@.subrange(i - 1, s@.len() as int);
        i = i - 1;
        proof {
            assert(more.subrange(1, more.len() as int) =~= tail);
            assert(more[0] == s@[i as int]);
            reveal_with_fuel(byte_range, 9);
        }
        x = s[i] as u64 + 256 * x;
    }
    assert(s@.subrange(0, s@.len() as int) =~= s@);
    x
}

} // verus!
