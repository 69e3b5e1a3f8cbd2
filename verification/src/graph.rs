//! The graph: a list of committed segments, the map from node ids to nodes,
//! and the queries that answer from all segments at once.

use crate::compact::{directed, lists_of, segments_wf};
use crate::edge::{spec_edge, spec_edges, Edge, EdgeLimit, StoredEdge};
use crate::id2node::Id2NodeDb;
use crate::node::{canonical, fingerprint, Node, NodeID};
use crate::query::{choose_edges, concat, concat_upto, datums, selection};
use crate::segment::{has_node, unlabeled, Adjacency, Segment};
use vstd::prelude::*;

verus! {

/// The ids of the committed segments, in the order in which the graph holds
/// the segments.
#[derive(Debug)]
pub struct Meta {
    pub comitted_segments: Vec<String>,
}

impl Meta {
    /// The ids, each as a sequence of characters.
    pub open spec fn ids(&self) -> Seq<Seq<char>> {
        Seq::new(self.comitted_segments@.len(), |i: int| self.comitted_segments@[i]@)
    }

    /// A list without ids.
    pub fn new() -> (res: Meta)
        ensures
            res.ids() == Seq::<Seq<char>>::empty(),
    {
        let res = Meta { comitted_segments: Vec::new() };
        assert(res.ids() =~= Seq::<Seq<char>>::empty());
        res
    }
}

impl Default for Meta {
    fn default() -> (res: Meta)
        ensures
            res.ids() == Seq::<Seq<char>>::empty(),
    {
        Meta::new()
    }
}

/// Why a graph could not be opened or changed.
#[derive(Clone, Copy, Debug, PartialEq, Eq, Structural)]
pub enum GraphError {
    /// Two segments carry the same id.
    DuplicateSegment,
    /// The list of committed segments and the segments do not agree.
    SegmentMismatch,
    /// An edge names a node that the map from ids to nodes lacks, or the map
    /// holds a node under an id that is not its own.
    UnknownNode,
    /// A fused adjacency list has more edges than an `EdgeRange` can count.
    ListTooLong,
}

/// An edge with its two nodes resolved.
#[derive(Debug)]
pub struct FullEdge {
    pub from: Node,
    pub to: Node,
    pub label: String,
}

/// No id occurs twice.
pub open spec fn distinct(ids: Seq<Seq<char>>) -> bool {
    forall|i: int, j: int| 0 <= i < j < ids.len() ==> #[trigger] ids[i] != #[trigger] ids[j]
}

/// The ids of the segments.
pub open spec fn segment_ids(segments: Seq<Segment>) -> Seq<Seq<char>> {
    Seq::new(segments.len(), |i: int| segments[i].spec_id())
}

/// Every node of the index of `adj`, and every neighbour in its lists, has a
/// name in `names`.
pub open spec fn adjacency_resolves(adj: Adjacency, names: Map<NodeID, Seq<char>>) -> bool {
    &&& forall|node: NodeID| #[trigger] has_node(adj.index(), node) ==> names.dom().contains(node)
    &&& forall|node: NodeID, j: int|
        0 <= j < adj.edges_of(node).len() ==> names.dom().contains(
            (#[trigger] adj.edges_of(node)[j]).other.id,
        )
}

/// Every node that an edge of `segments` names has a name in `names`.
pub open spec fn resolves(segments: Seq<Segment>, names: Map<NodeID, Seq<char>>) -> bool {
    forall|i: int, outgoing: bool|
        0 <= i < segments.len() ==> adjacency_resolves(
            #[trigger] directed(segments, outgoing)[i],
            names,
        )
}

/// Every name stands under its own fingerprint.
pub open spec fn named(names: Map<NodeID, Seq<char>>) -> bool {
    forall|id: NodeID| #[trigger]
        names.dom().contains(id) ==> NodeID(fingerprint(vstd::utf8::encode_utf8(names[id]))) == id
}

/// The edges that the segments hold at `node` in one direction, segment after
/// segment.
pub open spec fn gathered(segments: Seq<Segment>, node: NodeID, outgoing: bool) -> Seq<
    StoredEdge<String>,
> {
    concat(lists_of(directed(segments, outgoing), node))
}

/// Whether labels are dropped before or after the selection makes no
/// difference.
pub proof fn lemma_unlabeled_selection(g: Seq<StoredEdge<String>>)
    ensures
        selection(unlabeled(g)) == unlabeled(selection(g)),
{
    assert(datums(unlabeled(g)) =~= datums(g));
    crate::sort::lemma_selection_order(datums(g));
    assert(selection(unlabeled(g)) =~= unlabeled(selection(g)));
}

/// A graph of segments.
pub struct Webgraph {
    pub(crate) segments: Vec<Segment>,
    pub(crate) id2node: Id2NodeDb,
    pub(crate) meta: Meta,
}

impl Webgraph {
    /// The segments, in the order in which they were committed.
    pub open(crate) spec fn segs(&self) -> Seq<Segment> {
        self.segments@
    }

    /// The names of the nodes, by node id.
    pub open(crate) spec fn names(&self) -> Map<NodeID, Seq<char>> {
        self.id2node@
    }

    /// The ids of the committed segments.
    pub open(crate) spec fn ids(&self) -> Seq<Seq<char>> {
        self.meta.ids()
    }

    /// The number of nodes that have a name.
    pub open(crate) spec fn spec_num_nodes(&self) -> nat {
        self.id2node.spec_len()
    }

    /// The map from node ids to nodes is well formed.
    pub open(crate) spec fn db_wf(&self) -> bool {
        self.id2node.wf()
    }

    /// The segments are well formed and are the committed ones, no segment id
    /// occurs twice, and every node that an edge names has a name, under its
    /// own fingerprint.
    pub open spec fn wf(&self) -> bool {
        &&& segments_wf(self.segs())
        &&& self.db_wf()
        &&& self.ids() == segment_ids(self.segs())
        &&& distinct(self.ids())
        &&& resolves(self.segs(), self.names())
        &&& named(self.names())
    }

    /// Every node of a well-formed graph has a canonical name, which is the
    /// name that the node's id is the fingerprint of.
    pub proof fn lemma_names_canonical(&self)
        requires
            self.wf(),
        ensures
            forall|id: NodeID| #[trigger]
                self.names().dom().contains(id) ==> canonical(self.names()[id]) == self.names()[id]
                    && NodeID(fingerprint(vstd::utf8::encode_utf8(self.names()[id]))) == id,
    {
        self.id2node.lemma_names_canonical();
    }

    /// What a query for the edges at `node` answers before the limit: for
    /// each neighbour the first edge that the segments hold to it, by the
    /// neighbours' `(sort_key, id)`.
    pub open spec fn spec_adjacent(&self, node: NodeID, outgoing: bool) -> Seq<StoredEdge<String>> {
        selection(gathered(self.segs(), node, outgoing))
    }

    /// A graph without segments and without nodes.
    pub fn new() -> (res: Webgraph)
        ensures
            res.wf(),
            res.segs() == Seq::<Segment>::empty(),
            res.ids() == Seq::<Seq<char>>::empty(),
            res.names() == Map::<NodeID, Seq<char>>::empty(),
    {
        let res = Webgraph { segments: Vec::new(), id2node: Id2NodeDb::new(), meta: Meta::new() };
        assert(res.ids() =~= segment_ids(res.segs()));
        assert(res.ids() =~= Seq::<Seq<char>>::empty());
        res
    }

    /// The number of segments.
    pub fn num_segments(&self) -> (res: usize)
        ensures
            res == self.segs().len(),
    {
        self.segments.len()
    }

    /// The segments, in the order in which they were committed.
    pub fn segments(&self) -> (res: &Vec<Segment>)
        ensures
            res@ == self.segs(),
    {
        &self.segments
    }

    /// The map from node ids to nodes.
    pub fn id2node_db(&self) -> (res: &Id2NodeDb)
        ensures
            res@ == self.names(),
            self.wf() ==> res.wf(),
    {
        &self.id2node
    }

    /// The ids of the committed segments.
    pub fn meta(&self) -> (res: &Meta)
        ensures
            res.ids() == self.ids(),
    {
        &self.meta
    }

    /// The node of `id`, if the graph knows one.
    pub fn id2node(&self, id: &NodeID) -> (res: Option<Node>)
        requires
            self.wf(),
        ensures
            res is Some <==> self.names().dom().contains(*id),
            res matches Some(node) ==> node@ == self.names()[*id] && node.spec_id() == *id,
    {
        self.id2node.get(id)
    }

    /// The ids of all nodes, in rising order.
    pub fn nodes(&self) -> (res: Vec<NodeID>)
        requires
            self.wf(),
        ensures
            res.len() == self.spec_num_nodes(),
            forall|a: int, b: int| 0 <= a < b < res.len() ==> (#[trigger] res[a]).0 < (#[trigger] res[b]).0,
            forall|id: NodeID| res@.contains(id) <==> self.names().dom().contains(id),
    {
        self.id2node.keys()
    }

    /// All nodes with their ids, in rising order of the ids.
    pub fn node_ids(&self) -> (res: Vec<(Node, NodeID)>)
        requires
            self.wf(),
        ensures
            forall|a: int, b: int|
                0 <= a < b < res.len() ==> (#[trigger] res[a]).1.0 < (#[trigger] res[b]).1.0,
            forall|t: int|
                0 <= t < res.len() ==> self.names().dom().contains((#[trigger] res[t]).1)
                    && self.names()[res[t].1] == res[t].0@,
            forall|id: NodeID|
                self.names().dom().contains(id) ==> exists|t: int|
                    0 <= t < res.len() && (#[trigger] res[t]).1 == id,
    {
        let rows = self.id2node.iter();
        let mut rows = rows;
        let ghost all = rows@;
        let mut back: Vec<(Node, NodeID)> = Vec::new();
        while rows.len() > 0
            invariant
                rows.len() + back.len() == all.len(),
                rows@ == all.take(rows.len() as int),
                forall|i: int|
                    0 <= i < back.len() ==> (#[trigger] back[i]).1 == all[all.len() - 1 - i].0
                        && back[i].0@ == all[all.len() - 1 - i].1@,
            decreases rows.len(),
        {
            let (id, node) = rows.pop().unwrap();
            back.push((node, id));
        }
        let mut res: Vec<(Node, NodeID)> = Vec::new();
        while back.len() > 0
            invariant
                res.len() + back.len() == all.len(),
                forall|i: int|
                    0 <= i < back.len() ==> (#[trigger] back[i]).1 == all[all.len() - 1 - i].0
                        && back[i].0@ == all[all.len() - 1 - i].1@,
                forall|t: int|
                    0 <= t < res.len() ==> (#[trigger] res[t]).1 == all[t].0 && res[t].0@
                        == all[t].1@,
            decreases back.len(),
        {
            let pair = back.pop().unwrap();
            res.push(pair);
        }
        proof {
            assert forall|id: NodeID| self.names().dom().contains(id) implies exists|t: int|
                0 <= t < res.len() && (#[trigger] res[t]).1 == id by {
                let t = choose|t: int| 0 <= t < all.len() && (#[trigger] all[t]).0 == id;
                assert(res[t].1 == id);
            }
            assert forall|a: int, b: int| 0 <= a < b < res.len() implies (#[trigger] res[a]).1.0 < (
            #[trigger] res[b]).1.0 by {
                assert(all[a].0.0 < all[b].0.0);
            }
            assert forall|t: int| 0 <= t < res.len() implies self.names().dom().contains(
                (#[trigger] res[t]).1,
            ) && self.names()[res[t].1] == res[t].0@ by {
                assert(self.names().dom().contains(all[t].0));
            }
        }
        res
    }

    /// The number of nodes. In memory the estimate is exact.
    pub fn estimate_num_nodes(&self) -> (res: usize)
        requires
            self.wf(),
        ensures
            res == self.spec_num_nodes(),
    {
        self.id2node.estimate_num_keys()
    }

    /// The edges that the segments hold at `node`, segment after segment,
    /// with their labels.
    fn gather(&self, node: &NodeID, outgoing: bool) -> (g: Vec<StoredEdge<String>>)
        requires
            self.wf(),
        ensures
            g@ == gathered(self.segs(), *node, outgoing),
    {
        let k = self.segments.len();
        let ghost lists = lists_of(directed(self.segs(), outgoing), *node);
        let mut g: Vec<StoredEdge<String>> = Vec::new();
        let mut i: usize = 0;
        while i < k
            invariant
                i <= k,
                k == self.segments.len(),
                self.wf(),
                lists == lists_of(directed(self.segs(), outgoing), *node),
                g@ == concat_upto(lists, i as nat),
            decreases k - i,
        {
            let mut list = self.segments[i].adjacent_with_label(node, outgoing);
            assert(list@ == lists[i as int]);
            g.append(&mut list);
            i += 1;
        }
        g
    }

    /// The edges that the segments hold at `node`, segment after segment,
    /// without their labels.
    fn gather_unlabeled(&self, node: &NodeID, outgoing: bool) -> (g: Vec<StoredEdge<()>>)
        requires
            self.wf(),
        ensures
            g@ == unlabeled(gathered(self.segs(), *node, outgoing)),
    {
        let k = self.segments.len();
        let ghost lists = lists_of(directed(self.segs(), outgoing), *node);
        let mut g: Vec<StoredEdge<()>> = Vec::new();
        let mut i: usize = 0;
        assert(g@ =~= unlabeled(concat_upto(lists, 0)));
        while i < k
            invariant
                i <= k,
                k == self.segments.len(),
                self.wf(),
                lists == lists_of(directed(self.segs(), outgoing), *node),
                g@ == unlabeled(concat_upto(lists, i as nat)),
            decreases k - i,
        {
            let mut list = if outgoing {
                self.segments[i].outgoing_edges(node, &EdgeLimit::Unlimited)
            } else {
                self.segments[i].ingoing_edges(node, &EdgeLimit::Unlimited)
            };
            let ghost before = g@;
            proof {
                let full = lists[i as int];
                assert(EdgeLimit::Unlimited.spec_apply(full) =~= full);
                assert(list@ == unlabeled(full));
            }
            g.append(&mut list);
            assert(g@ =~= unlabeled(concat_upto(lists, (i + 1) as nat)));
            i += 1;
        }
        g
    }

    /// The edges at `node` in one direction, with their labels: one edge per
    /// neighbour, by the neighbours' `(sort_key, id)`, cut to the limit.
    pub(crate) fn adjacent_with_labels(&self, node: &NodeID, limit: EdgeLimit, outgoing: bool) -> (res: Vec<
        Edge<String>,
    >)
        requires
            self.wf(),
        ensures
            res@ == spec_edges(*node, limit.spec_apply(self.spec_adjacent(*node, outgoing)), outgoing),
    {
        let g = self.gather(node, outgoing);
        let chosen = choose_edges(g, &limit);
        let ghost list = chosen@;
        let mut chosen = chosen;
        let mut back: Vec<Edge<String>> = Vec::new();
        while chosen.len() > 0
            invariant
                chosen.len() + back.len() == list.len(),
                chosen@ == list.take(chosen.len() as int),
                forall|i: int|
                    0 <= i < back.len() ==> #[trigger] back[i] == spec_edge(
                        *node,
                        list[list.len() - 1 - i],
                        outgoing,
                    ),
            decreases chosen.len(),
        {
            let e = chosen.pop().unwrap();
            let edge = if outgoing {
                Edge { from: *node, to: e.other.id, label: e.label, rel: e.rel }
            } else {
                Edge { from: e.other.id, to: *node, label: e.label, rel: e.rel }
            };
            back.push(edge);
        }
        let mut res: Vec<Edge<String>> = Vec::new();
        while back.len() > 0
            invariant
                res.len() + back.len() == list.len(),
                forall|i: int|
                    0 <= i < back.len() ==> #[trigger] back[i] == spec_edge(
                        *node,
                        list[list.len() - 1 - i],
                        outgoing,
                    ),
                forall|t: int|
                    0 <= t < res.len() ==> #[trigger] res[t] == spec_edge(*node, list[t], outgoing),
            decreases back.len(),
        {
            let edge = back.pop().unwrap();
            res.push(edge);
        }
        assert(res@ =~= spec_edges(*node, list, outgoing));
        res
    }

    /// The edges at `node` in one direction, without their labels: one edge
    /// per neighbour, by the neighbours' `(sort_key, id)`, cut to the limit.
    fn adjacent(&self, node: &NodeID, limit: EdgeLimit, outgoing: bool) -> (res: Vec<Edge<()>>)
        requires
            self.wf(),
        ensures
            res@ == spec_edges(
                *node,
                unlabeled(limit.spec_apply(self.spec_adjacent(*node, outgoing))),
                outgoing,
            ),
    {
        let g = self.gather_unlabeled(node, outgoing);
        let chosen = choose_edges(g, &limit);
        proof {
            let full = gathered(self.segs(), *node, outgoing);
            lemma_unlabeled_selection(full);
            assert(limit.spec_apply(unlabeled(selection(full))) =~= unlabeled(
                limit.spec_apply(selection(full)),
            ));
        }
        let n = chosen.len();
        let mut res: Vec<Edge<()>> = Vec::new();
        let mut t: usize = 0;
        while t < n
            invariant
                t <= n,
                n == chosen.len(),
                res.len() == t,
                forall|u: int|
                    0 <= u < t ==> #[trigger] res[u] == spec_edge(*node, chosen[u], outgoing),
            decreases n - t,
        {
            let e = &chosen[t];
            let edge = if outgoing {
                Edge { from: *node, to: e.other.id, label: (), rel: e.rel }
            } else {
                Edge { from: e.other.id, to: *node, label: (), rel: e.rel }
            };
            res.push(edge);
            t += 1;
        }
        assert(res@ =~= spec_edges(*node, chosen@, outgoing));
        res
    }

    /// The edges that leave `node`: one per node reached, by the reached
    /// nodes' `(sort_key, id)`, and of these the first that `limit` lets
    /// through.
    pub fn raw_outgoing_edges(&self, node: &NodeID, limit: EdgeLimit) -> (res: Vec<Edge<()>>)
        requires
            self.wf(),
        ensures
            res@ == spec_edges(
                *node,
                unlabeled(limit.spec_apply(self.spec_adjacent(*node, true))),
                true,
            ),
    {
        self.adjacent(node, limit, true)
    }

    /// As `raw_outgoing_edges`, with the labels of the edges.
    pub fn raw_outgoing_edges_with_labels(&self, node: &NodeID, limit: EdgeLimit) -> (res: Vec<
        Edge<String>,
    >)
        requires
            self.wf(),
        ensures
            res@ == spec_edges(*node, limit.spec_apply(self.spec_adjacent(*node, true)), true),
    {
        self.adjacent_with_labels(node, limit, true)
    }

    /// The edges that reach `node`: one per node they leave, by those nodes'
    /// `(sort_key, id)`, and of these the first that `limit` lets through.
    pub fn raw_ingoing_edges(&self, node: &NodeID, limit: EdgeLimit) -> (res: Vec<Edge<()>>)
        requires
            self.wf(),
        ensures
            res@ == spec_edges(
                *node,
                unlabeled(limit.spec_apply(self.spec_adjacent(*node, false))),
                false,
            ),
    {
        self.adjacent(node, limit, false)
    }

    /// As `raw_ingoing_edges`, with the labels of the edges.
    pub fn raw_ingoing_edges_with_labels(&self, node: &NodeID, limit: EdgeLimit) -> (res: Vec<
        Edge<String>,
    >)
        requires
            self.wf(),
        ensures
            res@ == spec_edges(*node, limit.spec_apply(self.spec_adjacent(*node, false)), false),
    {
        self.adjacent_with_labels(node, limit, false)
    }
}

} // verus!
