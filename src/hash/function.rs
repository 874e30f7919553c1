use vstd::prelude::*;

verus! {

/// Starting value of the accumulator.
pub const FNV_OFFSET: u64 = 2166136261;

/// Multiplier applied to the accumulator before each code point is mixed in.
pub const FNV_PRIME: u64 = 16777619;

/// The hash of a sequence of Unicode scalar values: starting from `FNV_OFFSET`,
/// each code point is mixed in by a wrapping multiplication with `FNV_PRIME`
/// followed by an exclusive or with the code point.
pub open spec fn spec_fnv(s: Seq<char>) -> u64
    decreases s.len(),
{
    if s.len() == 0 {
        FNV_OFFSET
    } else {
        let h = spec_fnv(s.drop_last());
        (vstd::wrapping::u64_specs::wrapping_mul(h, FNV_PRIME) ^ (s.last() as u64))
    }
}

/// Hashes the code points of `s` (not its UTF-8 bytes).
pub fn fnv_hash(s: &str) -> (r: u64)
    ensures
        r == spec_fnv(s@),
{
    let mut h: u64 = FNV_OFFSET;
    for c in it: s.chars()
        invariant
            it.seq() == s@,
            h == spec_fnv(s@.take(it.index() as int)),
    {
        proof {
            assert(s@.take(it.index() as int + 1).drop_last() == s@.take(it.index() as int));
        }
        let i = c as u64;
        h = h.wrapping_mul(FNV_PRIME) ^ i;
    }
    proof {
        assert(s@.take(s@.len() as int) == s@);
    }
    h
}

} // verus!
