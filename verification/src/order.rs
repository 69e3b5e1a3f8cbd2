//! Equality and order of the records of a segment: neighbour data by
//! `(sort_key, id)`, stored edges by their neighbour alone, index entries by
//! their node alone.

use crate::edge::{NodeDatum, StoredEdge};
use crate::merge::MergeNode;
use core::cmp::Ordering;
use vstd::prelude::*;
use vstd::std_specs::cmp::{PartialEqSpecImpl, PartialOrdSpecImpl};

verus! {

/// How `a` stands to `b`.
pub open spec fn how_stand(a: u64, b: u64) -> Ordering {
    if a < b {
        Ordering::Less
    } else if a == b {
        Ordering::Equal
    } else {
        Ordering::Greater
    }
}

/// How the datum `a` stands to the datum `b`: by the sort key, then by the id.
pub open spec fn how_data_stand(a: NodeDatum, b: NodeDatum) -> Ordering {
    if a.sort_key != b.sort_key {
        how_stand(a.sort_key, b.sort_key)
    } else {
        how_stand(a.id.0, b.id.0)
    }
}

fn compare(a: u64, b: u64) -> (res: Ordering)
    ensures
        res == how_stand(a, b),
{
    if a < b {
        Ordering::Less
    } else if a == b {
        Ordering::Equal
    } else {
        Ordering::Greater
    }
}

fn compare_data(a: &NodeDatum, b: &NodeDatum) -> (res: Ordering)
    ensures
        res == how_data_stand(*a, *b),
{
    if a.sort_key != b.sort_key {
        compare(a.sort_key, b.sort_key)
    } else {
        compare(a.id.0, b.id.0)
    }
}

impl PartialOrd for NodeDatum {
    fn partial_cmp(&self, other: &NodeDatum) -> (res: Option<Ordering>) {
        Some(compare_data(self, other))
    }
}

impl PartialOrdSpecImpl for NodeDatum {
    open spec fn obeys_partial_cmp_spec() -> bool {
        true
    }

    open spec fn partial_cmp_spec(&self, other: &NodeDatum) -> Option<Ordering> {
        Some(how_data_stand(*self, *other))
    }
}

impl<L> PartialEq for StoredEdge<L> {
    fn eq(&self, other: &StoredEdge<L>) -> (res: bool) {
        self.other == other.other
    }
}

impl<L> PartialEqSpecImpl for StoredEdge<L> {
    open spec fn obeys_eq_spec() -> bool {
        true
    }

    /// Stored edges are equal where they lead to the same neighbour datum.
    open spec fn eq_spec(&self, other: &StoredEdge<L>) -> bool {
        self.other == other.other
    }
}

impl<L> Eq for StoredEdge<L> {

}

impl<L> PartialOrd for StoredEdge<L> {
    fn partial_cmp(&self, other: &StoredEdge<L>) -> (res: Option<Ordering>) {
        Some(compare_data(&self.other, &other.other))
    }
}

impl<L> PartialOrdSpecImpl for StoredEdge<L> {
    open spec fn obeys_partial_cmp_spec() -> bool {
        true
    }

    /// Stored edges are ordered by their neighbour datum alone.
    open spec fn partial_cmp_spec(&self, other: &StoredEdge<L>) -> Option<Ordering> {
        Some(how_data_stand(self.other, other.other))
    }
}

impl<O> PartialEq for MergeNode<O> {
    fn eq(&self, other: &MergeNode<O>) -> (res: bool) {
        self.node == other.node
    }
}

impl<O> PartialEqSpecImpl for MergeNode<O> {
    open spec fn obeys_eq_spec() -> bool {
        true
    }

    /// Index entries are equal where they are about the same node.
    open spec fn eq_spec(&self, other: &MergeNode<O>) -> bool {
        self.node == other.node
    }
}

impl<O> Eq for MergeNode<O> {

}

impl<O> PartialOrd for MergeNode<O> {
    fn partial_cmp(&self, other: &MergeNode<O>) -> (res: Option<Ordering>) {
        Some(compare(self.node.0, other.node.0))
    }
}

impl<O> PartialOrdSpecImpl for MergeNode<O> {
    open spec fn obeys_partial_cmp_spec() -> bool {
        true
    }

    /// Index entries are ordered by the id of their node alone.
    open spec fn partial_cmp_spec(&self, other: &MergeNode<O>) -> Option<Ordering> {
        Some(how_stand(self.node.0, other.node.0))
    }
}

} // verus!
