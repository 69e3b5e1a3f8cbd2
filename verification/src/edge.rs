//! Edges as they are stored and as queries return them.

use crate::kway::MergeKey;
use crate::node::NodeID;
use vstd::prelude::*;
use vstd::std_specs::ops::BitOrSpecImpl;

verus! {

/// The longest label that is stored, in bytes of UTF-8.
pub const MAX_LABEL_LENGTH: usize = 1024;

/// A set of `rel` attributes of a link, one bit each.
#[derive(Clone, Copy, Debug, PartialEq, Eq, Structural, Hash)]
pub struct RelFlags(pub u32);

impl RelFlags {
    /// The link names the author of the page.
    pub fn author() -> (res: RelFlags)
        ensures
            res.0 == 1,
    {
        RelFlags(1)
    }

    /// The link stands in the footer of the page.
    pub fn is_in_footer() -> (res: RelFlags)
        ensures
            res.0 == 2,
    {
        RelFlags(2)
    }

    /// The link stands in the navigation of the page.
    pub fn is_in_navigation() -> (res: RelFlags)
        ensures
            res.0 == 4,
    {
        RelFlags(4)
    }

    /// The link asks not to be followed.
    pub fn nofollow() -> (res: RelFlags)
        ensures
            res.0 == 8,
    {
        RelFlags(8)
    }

    /// The link is paid for.
    pub fn sponsored() -> (res: RelFlags)
        ensures
            res.0 == 16,
    {
        RelFlags(16)
    }

    /// The link leads to a tag page.
    pub fn tag() -> (res: RelFlags)
        ensures
            res.0 == 32,
    {
        RelFlags(32)
    }

    /// The link stands in content that users wrote.
    pub fn ugc() -> (res: RelFlags)
        ensures
            res.0 == 64,
    {
        RelFlags(64)
    }

    /// The set without any flag.
    pub fn empty() -> (res: RelFlags)
        ensures
            res.0 == 0,
    {
        RelFlags(0)
    }

    /// The flags as bits of one number.
    pub fn bits(&self) -> (res: u32)
        ensures
            res == self.0,
    {
        self.0
    }

    /// Every flag of `other` is set in `self`.
    pub open spec fn spec_contains(self, other: RelFlags) -> bool {
        self.0 & other.0 == other.0
    }

    /// Whether every flag of `other` is set in `self`.
    pub fn contains(&self, other: RelFlags) -> (res: bool)
        ensures
            res == self.spec_contains(other),
    {
        self.0 & other.0 == other.0
    }

    /// The flags that are set in `self` or in `other`.
    pub fn union(self, other: RelFlags) -> (res: RelFlags)
        ensures
            res.0 == self.0 | other.0,
    {
        RelFlags(self.0 | other.0)
    }
}

impl Default for RelFlags {
    fn default() -> (res: RelFlags)
        ensures
            res.0 == 0,
    {
        RelFlags(0)
    }
}

impl core::ops::BitOr for RelFlags {
    type Output = RelFlags;

    fn bitor(self, rhs: RelFlags) -> (res: RelFlags) {
        RelFlags(self.0 | rhs.0)
    }
}

impl BitOrSpecImpl for RelFlags {
    open spec fn obeys_bitor_spec() -> bool {
        true
    }

    open spec fn bitor_req(self, rhs: RelFlags) -> bool {
        true
    }

    open spec fn bitor_spec(self, rhs: RelFlags) -> RelFlags {
        RelFlags(self.0 | rhs.0)
    }
}

/// A neighbour in an adjacency list: its id and the key that the list is
/// sorted by.
///
/// Data are ordered by `sort_key`, then by `id`.
#[derive(Clone, Copy, Debug, PartialEq, Eq, Structural)]
pub struct NodeDatum {
    pub sort_key: u64,
    pub id: NodeID,
}

impl NodeDatum {
    /// `self` comes before `other`: by the sort key, then by the id.
    pub open spec fn spec_lt(self, other: NodeDatum) -> bool {
        self.sort_key < other.sort_key || (self.sort_key == other.sort_key && self.id.0
            < other.id.0)
    }

    /// `self` comes before `other` or is `other`.
    pub open spec fn spec_le(self, other: NodeDatum) -> bool {
        self == other || self.spec_lt(other)
    }

    /// The datum of the node `node` with the sort key `sort_key`.
    pub fn new(node: NodeID, sort_key: u64) -> (res: NodeDatum)
        ensures
            res == (NodeDatum { sort_key, id: node }),
    {
        NodeDatum { sort_key, id: node }
    }

    /// The id of the node.
    pub fn node(&self) -> (res: NodeID)
        ensures
            res == self.id,
    {
        self.id
    }

    /// The key by which adjacency lists are sorted.
    pub fn sort_key(&self) -> (res: u64)
        ensures
            res == self.sort_key,
    {
        self.sort_key
    }

    /// Whether `self` comes before `other`.
    pub fn lt(&self, other: &NodeDatum) -> (res: bool)
        ensures
            res == self.spec_lt(*other),
    {
        self.sort_key < other.sort_key || (self.sort_key == other.sort_key && self.id.0
            < other.id.0)
    }
}

/// An edge as a segment holds it: the neighbour, the label and the flags. The
/// node that the adjacency list belongs to is not repeated in it.
#[derive(Clone, Debug)]
pub struct StoredEdge<L> {
    pub other: NodeDatum,
    pub label: L,
    pub rel: RelFlags,
}

impl StoredEdge<()> {
    /// An edge to `other` without a label.
    pub fn new(other: NodeDatum, rel: RelFlags) -> (res: StoredEdge<()>)
        ensures
            res == (StoredEdge { other, label: (), rel }),
    {
        StoredEdge { other, label: (), rel }
    }
}

impl<L> StoredEdge<L> {
    /// An edge to `other` with the label `label`.
    pub fn with_label(other: NodeDatum, label: L, rel: RelFlags) -> (res: StoredEdge<L>)
        ensures
            res == (StoredEdge { other, label, rel }),
    {
        StoredEdge { other, label, rel }
    }
}

impl<L> MergeKey for StoredEdge<L> {
    /// Stored edges are merged by the sort key of their neighbour alone:
    /// edges of one sort key count as the same edge, of which the least by
    /// the neighbour's id is kept.
    open spec fn spec_key(&self) -> (u64, u64) {
        (self.other.sort_key, 0)
    }

    fn key(&self) -> (k: (u64, u64)) {
        (self.other.sort_key, 0)
    }
}

} // verus!

verus! {

/// How many edges a query returns at most.
#[derive(Clone, Copy, Debug, PartialEq, Eq, Structural)]
pub enum EdgeLimit {
    Unlimited,
    Limit(usize),
}

impl EdgeLimit {
    /// How many of `len` items the limit lets through.
    pub open spec fn spec_count(self, len: nat) -> nat {
        match self {
            EdgeLimit::Unlimited => len,
            EdgeLimit::Limit(n) => if n < len {
                n as nat
            } else {
                len
            },
        }
    }

    /// The items that the limit lets through: all of them, or the first `n`.
    pub open spec fn spec_apply<T>(self, items: Seq<T>) -> Seq<T> {
        items.take(self.spec_count(items.len()) as int)
    }

    /// How many of `len` items the limit lets through.
    pub fn count(&self, len: usize) -> (res: usize)
        ensures
            res == self.spec_count(len as nat),
    {
        match self {
            EdgeLimit::Unlimited => len,
            EdgeLimit::Limit(n) => if *n < len {
                *n
            } else {
                len
            },
        }
    }

    /// Cuts `items` down to what the limit lets through.
    pub fn apply<T>(&self, items: Vec<T>) -> (res: Vec<T>)
        ensures
            res@ == self.spec_apply(items@),
    {
        let ghost all = items@;
        let mut items = items;
        let keep = self.count(items.len());
        items.truncate(keep);
        assert(items@ =~= self.spec_apply(all)) by {
            assert(all.subrange(0, keep as int) =~= all.take(keep as int));
        }
        items
    }
}

} // verus!

verus! {

/// An edge between two nodes, named by their ids.
#[derive(Clone, Debug)]
pub struct Edge<L> {
    pub from: NodeID,
    pub to: NodeID,
    pub label: L,
    pub rel: RelFlags,
}

/// An edge of the adjacency list of `node`, in the direction that `outgoing`
/// tells.
pub open spec fn spec_edge<L>(node: NodeID, e: StoredEdge<L>, outgoing: bool) -> Edge<L> {
    if outgoing {
        Edge { from: node, to: e.other.id, label: e.label, rel: e.rel }
    } else {
        Edge { from: e.other.id, to: node, label: e.label, rel: e.rel }
    }
}

/// The edges of an adjacency list of `node`.
pub open spec fn spec_edges<L>(node: NodeID, list: Seq<StoredEdge<L>>, outgoing: bool) -> Seq<Edge<L>> {
    Seq::new(list.len(), |j: int| spec_edge(node, list[j], outgoing))
}

/// A page of a host, in a segment's index of pages by host.
#[derive(Clone, Copy, Debug, PartialEq, Eq, Structural)]
pub struct PageEntry {
    pub host: NodeID,
    pub page: NodeID,
}

impl MergeKey for PageEntry {
    open spec fn spec_key(&self) -> (u64, u64) {
        (self.host.0, self.page.0)
    }

    fn key(&self) -> (k: (u64, u64)) {
        (self.host.0, self.page.0)
    }
}

} // verus!
