use vstd::prelude::*;
use hashbrown::HashSet;

verus! {

/// A set of pairs of node numbers, kept in a `HashSet` of hashbrown.
#[verifier::external_body]
pub struct EdgeSet {
    pairs: HashSet<(usize, usize)>,
}

/// The pairs that the set holds.
pub uninterp spec fn pairs_of(set: EdgeSet) -> Set<(usize, usize)>;

/// `HashSet::new` of hashbrown: a set that holds nothing.
#[verifier::external_body]
pub(crate) fn new_edge_set() -> (set: EdgeSet)
    ensures
        pairs_of(set) == Set::<(usize, usize)>::empty(),
{
    EdgeSet { pairs: HashSet::new() }
}

/// `HashSet::insert` of hashbrown: afterwards the set holds the pair and whatever
/// it held before; the result tells whether the pair was new to it.
#[verifier::external_body]
pub(crate) fn insert_edge(set: &mut EdgeSet, pair: (usize, usize)) -> (fresh: bool)
    ensures
        pairs_of(*final(set)) == pairs_of(*old(set)).insert(pair),
        fresh == !pairs_of(*old(set)).contains(pair),
{
    set.pairs.insert(pair)
}

} // verus!
