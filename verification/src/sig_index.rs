//! Where a group stands, looked up by its signature.
use vstd::prelude::*;

verus! {

/// A `hashbrown::HashMap` from group signatures to positions in a list of
/// groups. What it holds is `positions`.
#[verifier::external_body]
pub struct SigIndex {
    map: hashbrown::HashMap<u64, usize>,
}

/// The positions that an index holds, by signature.
pub uninterp spec fn positions(index: SigIndex) -> Map<u64, usize>;

/// `hashbrown::HashMap::new`: the new map holds no entry.
#[verifier::external_body]
pub(crate) fn new_index() -> (index: SigIndex)
    ensures
        positions(index).dom() == Set::<u64>::empty(),
{
    SigIndex { map: hashbrown::HashMap::new() }
}

/// `hashbrown::HashMap::get`, with the value copied out: the entry of `sig`
/// where there is one.
#[verifier::external_body]
pub(crate) fn position_of(index: &SigIndex, sig: u64) -> (position: Option<usize>)
    ensures
        position == positions(*index).get(sig),
{
    index.map.get(&sig).copied()
}

/// `hashbrown::HashMap::insert`: afterwards `sig` has the entry `position`,
/// whatever it had before, and all other entries are as they were.
#[verifier::external_body]
pub(crate) fn set_position(index: &mut SigIndex, sig: u64, position: usize)
    ensures
        positions(*final(index)) == positions(*old(index)).insert(sig, position),
{
    index.map.insert(sig, position);
}

} // verus!
