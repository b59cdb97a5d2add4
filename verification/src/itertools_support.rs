//! The one call into the itertools crate: canonicalizing an
//! excluded-letter vector by sorting and removing duplicates.

use vstd::prelude::*;
use itertools::Itertools;

verus! {

/// Relies on itertools' `Itertools::sorted` (an ascending stable sort
/// by `Ord`, here `char` code-point order) followed by
/// `Itertools::dedup` (removes consecutive identical elements, so on
/// sorted input every element is unique): the result is strictly
/// ascending and holds exactly the set of input elements.
#[verifier::external_body]
pub fn sorted_dedup(v: Vec<char>) -> (r: Vec<char>)
    ensures
        r@.no_duplicates(),
        r@.to_set() == v@.to_set(),
        forall|i: int, j: int| 0 <= i < j < r@.len() ==> (r@[i] as u32) < (r@[j] as u32),
{
    v.into_iter().sorted().dedup().collect()
}

} // verus!
