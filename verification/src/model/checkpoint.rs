//! Parameters as bytes.

use vstd::prelude::*;

use crate::bytes::{
    byte_range, le_bytes, le_value, lemma_byte_ranges, lemma_le_bytes_len, lemma_le_round_trip,
    push_le, read_le,
};
use crate::scalar::{bits_are, from_bits_is, Single};

verus! {

/// The four bytes are those of `p`, the lowest first.
pub open spec fn value_bytes_are<F: Single>(p: F, four: Seq<u8>) -> bool {
    exists|bits: u32| #[trigger] bits_are(p, bits) && four == le_bytes(bits as nat, 4)
}

/// `bytes` holds four bytes for each parameter, in order.
pub open spec fn checkpoint_is<F: Single>(params: Seq<F>, bytes: Seq<u8>) -> bool {
    &&& bytes.len() == 4 * params.len()
    &&& forall|i: int|
        0 <= i < params.len() ==> value_bytes_are(
            #[trigger] params[i],
            bytes.subrange(4 * i, 4 * i + 4),
        )
}

/// Each parameter is the value whose bytes stand at its place.
pub open spec fn loaded_is<F: Single>(bytes: Seq<u8>, params: Seq<F>) -> bool {
    &&& bytes.len() == 4 * params.len()
    &&& forall|i: int|
        0 <= i < params.len() ==> from_bits_is(
            le_value(bytes.subrange(4 * i, 4 * i + 4)) as u32,
            #[trigger] params[i],
        )
}

/// What is loaded from a checkpoint has the bits of what was saved.
pub proof fn lemma_checkpoint_round_trip<F: Single>(
    saved: Seq<F>,
    bytes: Seq<u8>,
    loaded: Seq<F>,
    i: int,
)
    requires
        checkpoint_is(saved, bytes),
        loaded_is(bytes, loaded),
        0 <= i < saved.len(),
    ensures
        loaded.len() == saved.len(),
        exists|bits: u32| #[trigger] bits_are(saved[i], bits) && from_bits_is(bits, loaded[i]),
{
    let four = bytes.subrange(4 * i, 4 * i + 4);
    assert(value_bytes_are(saved[i], four));
    let bits = choose|bits: u32| #[trigger]
        bits_are(saved[i], bits) && four == le_bytes(bits as nat, 4);
    lemma_byte_ranges();
    lemma_le_round_trip(bits as nat, 4);
    assert(from_bits_is(le_value(four) as u32, loaded[i]));
}

/// A value is known by its bits: whatever is made of them is the value.
pub open spec fn known_by_bits<F: Single>() -> bool {
    forall|p: F, bits: u32, q: F| #[trigger]
        bits_are(p, bits) && #[trigger] from_bits_is(bits, q) ==> q == p
}

/// Loading a checkpoint gives back the parameters that were saved.
pub proof fn lemma_checkpoint_restores<F: Single>(saved: Seq<F>, bytes: Seq<u8>, loaded: Seq<F>)
    requires
        known_by_bits::<F>(),
        checkpoint_is(saved, bytes),
        loaded_is(bytes, loaded),
    ensures
        loaded == saved,
{
    assert forall|i: int| 0 <= i < saved.len() implies loaded[i] == saved[i] by {
        lemma_checkpoint_round_trip(saved, bytes, loaded, i);
    }
    assert(loaded =~= saved);
}

/// The parameters as little-endian bytes.
pub fn checkpoint<F: Single>(params: &[F]) -> (bytes: Vec<u8>)
    ensures
        checkpoint_is(params@, bytes@),
{
    let mut bytes: Vec<u8> = Vec::new();
    for i in 0..params.len()
        invariant
            bytes@.len() == 4 * i,
            forall|j: int|
                0 <= j < i ==> value_bytes_are(
                    #[trigger] params@[j],
                    bytes@.subrange(4 * j, 4 * j + 4),
                ),
    {
        let ghost before = bytes@;
        let bits = params[i].to_bits();
        push_le(&mut bytes, bits as u64, 4);
        proof {
            lemma_le_bytes_len(bits as nat, 4);
            assert forall|j: int| 0 <= j < i + 1 implies value_bytes_are(
                #[trigger] params@[j],
                bytes@.subrange(4 * j, 4 * j + 4),
            ) by {
                if j < i {
                    assert(bytes@.subrange(4 * j, 4 * j + 4) =~= before.subrange(4 * j, 4 * j + 4));
                } else {
                    assert(bytes@.subrange(4 * j, 4 * j + 4) =~= le_bytes(bits as nat, 4));
                }
            }
        }
    }
    bytes
}

/// Overwrite the parameters with those that `bytes` holds.
pub fn restore<F: Single>(params: &mut [F], bytes: &[u8])
    requires
        bytes@.len() == 4 * old(params)@.len(),
    ensures
        loaded_is(bytes@, final(params)@),
{
    let n = params.len();
    proof {
        lemma_byte_ranges();
    }
    for i in 0..n
        invariant
            byte_range(4) == 0x1_0000_0000,
            params@.len() == n,
            bytes@.len() == 4 * n,
            forall|j: int|
                0 <= j < i ==> from_bits_is(
                    le_value(bytes@.subrange(4 * j, 4 * j + 4)) as u32,
                    #[trigger] params@[j],
                ),
    {
        assert(4 * i + 4 <= bytes.len());
        let bits = read_le(&bytes[4 * i..4 * i + 4]);
        params[i] = F::from_bits(bits as u32);
    }
}

/// The bytes of parameter `i` stand at `4 * i` on, and are the digits of its bits
/// to the base 256, the lowest first.
pub proof fn lemma_checkpoint_places<F: Single>(params: Seq<F>, bytes: Seq<u8>, i: int)
    requires
        checkpoint_is(params, bytes),
        0 <= i < params.len(),
    ensures
        bytes.len() == 4 * params.len(),
        exists|bits: u32| #[trigger]
            bits_are(params[i], bits) && bits == bytes[4 * i] + 256 * bytes[4 * i + 1] + 65536
                * bytes[4 * i + 2] + 16777216 * bytes[4 * i + 3],
{
    let four = bytes.subrange(4 * i, 4 * i + 4);
    assert(value_bytes_are(params[i], four));
    let bits = choose|bits: u32| #[trigger]
        bits_are(params[i], bits) && four == le_bytes(bits as nat, 4);
    lemma_byte_ranges();
    lemma_le_round_trip(bits as nat, 4);
    lemma_four_bytes(four);
}

/// What is loaded as parameter `i` is the value of those bits.
pub proof fn lemma_loaded_places<F: Single>(bytes: Seq<u8>, params: Seq<F>, i: int)
    requires
        loaded_is(bytes, params),
        0 <= i < params.len(),
    ensures
        bytes.len() == 4 * params.len(),
        from_bits_is(
            (bytes[4 * i] + 256 * bytes[4 * i + 1] + 65536 * bytes[4 * i + 2] + 16777216 * bytes[4
                * i + 3]) as u32,
            params[i],
        ),
{
    lemma_four_bytes(bytes.subrange(4 * i, 4 * i + 4));
}

/// The number that four bytes make.
proof fn lemma_four_bytes(four: Seq<u8>)
    requires
        four.len() == 4,
    ensures
        le_value(four) == four[0] + 256 * four[1] + 65536 * four[2] + 16777216 * four[3],
{
    reveal_with_fuel(le_value, 5);
    let three = four.subrange(1, 4);
    let two = three.subrange(1, 3);
    let one = two.subrange(1, 2);
    assert(le_value(one) == one[0]);
    assert(le_value(two) == two[0] + 256 * le_value(one));
    assert(le_value(three) == three[0] + 256 * le_value(two));
    assert(le_value(four) == four[0] + 256 * le_value(three));
}

} // verus!
