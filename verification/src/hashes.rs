use vstd::prelude::*;

verus! {

/// Starting accumulator of the FNV-1 hash; also the hash of the empty byte
/// sequence, which the scanner and the text extractor treat as the reserved
/// "empty string" hash.
pub const FNV1_BASE: u32 = 0x811c9dc5;

/// Multiplier of the FNV-1 hash.
pub const FNV1_PRIME: u32 = 0x01000193;

/// FNV-1 over a byte sequence: fold left with a wrapping multiply by the
/// prime followed by a xor with the next byte.
pub open spec fn fnv1_spec(data: Seq<u8>) -> u32
    decreases data.len(),
{
    if data.len() == 0 {
        FNV1_BASE
    } else {
        vstd::wrapping::u32_specs::wrapping_mul(fnv1_spec(data.drop_last()), FNV1_PRIME) ^ (
        data.last() as u32)
    }
}

/// The hash of the empty byte sequence is the base constant.
pub proof fn lemma_fnv1_empty()
    ensures
        fnv1_spec(Seq::<u8>::empty()) == FNV1_BASE,
{
}

pub fn fnv1(data: &[u8]) -> (r: u32)
    ensures
        r == fnv1_spec(data@),
{
    let mut acc: u32 = FNV1_BASE;
    let mut i: usize = 0;
    while i < data.len()
        invariant
            0 <= i <= data@.len(),
            acc == fnv1_spec(data@.take(i as int)),
        decreases data@.len() - i,
    {
        let b = data[i];
        acc = acc.wrapping_mul(FNV1_PRIME) ^ (b as u32);
        i = i + 1;
        proof {
            assert(data@.take(i as int).drop_last() =~= data@.take(i - 1));
            assert(data@.take(i as int).last() == data@[i - 1]);
        }
    }
    proof {
        assert(data@.take(data@.len() as int) =~= data@);
    }
    acc
}

} // verus!
