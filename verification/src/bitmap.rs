use vstd::prelude::*;

verus! {

#[verifier::external_type_specification]
#[verifier::external_body]
pub struct ExTreemap(croaring::Treemap);

/// The set of 64-bit values a treemap holds.
pub uninterp spec fn treemap_contents(t: croaring::Treemap) -> Set<u64>;

/// Relies on croaring::Treemap::contains: whether `value` is in the held
/// set.
#[verifier::external_body]
pub fn treemap_contains(t: &croaring::Treemap, value: u64) -> (r: bool)
    ensures
        r == treemap_contents(*t).contains(value),
{
    t.contains(value)
}

} // verus!
