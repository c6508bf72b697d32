//! The bimap between subformula indices and subformula nodes.

use vstd::prelude::*;
use bimap::BiHashMap;
use std::collections::hash_map::RandomState;

verus! {

#[verifier::external_type_specification]
#[verifier::external_body]
#[verifier::reject_recursive_types(L)]
#[verifier::reject_recursive_types(R)]
#[verifier::reject_recursive_types(LS)]
#[verifier::reject_recursive_types(RS)]
pub struct ExBiHashMap<L, R, LS, RS>(BiHashMap<L, R, LS, RS>);

/// A subformula as plain values: its operator tag and its operands' indices
/// (for a proposition, the index of its name).
pub type Node = (usize, usize, usize);

/// Subformula indices on the left, their nodes on the right.
pub type NodeMap = BiHashMap<usize, Node, RandomState, RandomState>;

/// The left-to-right pairs that a bimap of subformula nodes holds.
pub uninterp spec fn node_pairs(m: NodeMap) -> Map<usize, Node>;

/// Relies on BiHashMap::new: the new bimap holds no pair.
#[verifier::external_body]
pub(crate) fn node_map_new() -> (r: NodeMap)
    ensures
        node_pairs(r).dom() == Set::<usize>::empty(),
{
    BiHashMap::new()
}

/// Relies on BiHashMap::insert: with neither value present before, the pair is
/// added and nothing is removed.
#[verifier::external_body]
pub(crate) fn node_map_insert(m: &mut NodeMap, left: usize, right: Node)
    requires
        !node_pairs(*old(m)).contains_key(left),
        forall|l: usize| #[trigger]
            node_pairs(*old(m)).contains_key(l) ==> node_pairs(*old(m))[l] != right,
    ensures
        node_pairs(*final(m)) == node_pairs(*old(m)).insert(left, right),
{
    m.insert(left, right);
}

/// Relies on BiHashMap::get_by_left: the node paired with `left`, if any.
#[verifier::external_body]
pub(crate) fn node_map_get_by_left(m: &NodeMap, left: usize) -> (r: Option<Node>)
    ensures
        match r {
            Some(n) => node_pairs(*m).contains_key(left) && node_pairs(*m)[left] == n,
            None => !node_pairs(*m).contains_key(left),
        },
{
    m.get_by_left(&left).copied()
}

/// Relies on BiHashMap::get_by_right: the index paired with `right`, if any.
#[verifier::external_body]
pub(crate) fn node_map_get_by_right(m: &NodeMap, right: &Node) -> (r: Option<usize>)
    ensures
        match r {
            Some(l) => node_pairs(*m).contains_key(l) && node_pairs(*m)[l] == *right,
            None => forall|l: usize| #[trigger]
                node_pairs(*m).contains_key(l) ==> node_pairs(*m)[l] != *right,
        },
{
    m.get_by_right(right).copied()
}

} // verus!
