use vstd::prelude::*;

use crate::hash::function::{self, spec_fnv};

verus! {

/// The same hash as `function::fnv_hash`, for an owned string.
pub fn fnv_hash(s: &String) -> (r: u64)
    ensures
        r == spec_fnv(s@),
{
    function::fnv_hash(s.as_str())
}

} // verus!
