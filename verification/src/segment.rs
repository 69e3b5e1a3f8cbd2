//! Segments: immutable runs of edges with an adjacency index in each direction.

use crate::edge::{spec_edges, Edge, EdgeLimit, PageEntry, StoredEdge};
use crate::fuse::{sorted, strictly_sorted};
use crate::kway::MergeKey;
use crate::merge::MergeNode;
use crate::node::NodeID;
use core::ops::Range;
use vstd::prelude::*;

verus! {

/// Where the edges of one node lie in a segment's edge store, and how many
/// they are.
#[derive(Clone, Copy, Debug, PartialEq, Eq, Structural)]
pub struct EdgeRange {
    pub start: u64,
    pub end: u64,
    pub count: u32,
}

impl EdgeRange {
    /// The range `range` of the edge store, which holds `count` edges.
    pub fn new(range: Range<u64>, count: u32) -> (res: EdgeRange)
        ensures
            res == (EdgeRange { start: range.start, end: range.end, count }),
    {
        EdgeRange { start: range.start, end: range.end, count }
    }

    /// Where the edges lie in the edge store.
    pub fn range(&self) -> (res: Range<u64>)
        ensures
            res.start == self.start,
            res.end == self.end,
    {
        self.start..self.end
    }

    /// The number of the edges.
    pub fn count(&self) -> (res: u32)
        ensures
            res == self.count,
    {
        self.count
    }
}

/// How a segment's edge store is to be packed when it is written out.
#[derive(Clone, Copy, Debug, PartialEq, Eq, Structural)]
pub enum Compression {
    Uncompressed,
    Lz4,
}

impl Default for Compression {
    fn default() -> (res: Compression)
        ensures
            res == Compression::Lz4,
    {
        Compression::Lz4
    }
}

/// Why a segment could not be made.
#[derive(Clone, Copy, Debug, PartialEq, Eq, Structural)]
pub enum StoreError {
    /// One node has more edges than an `EdgeRange` can count.
    ListTooLong,
    /// The parts of a segment do not fit together.
    Corrupt,
}

/// The same edges without their labels.
pub open spec fn unlabeled(list: Seq<StoredEdge<String>>) -> Seq<StoredEdge<()>> {
    Seq::new(list.len(), |j: int| StoredEdge { other: list[j].other, label: (), rel: list[j].rel })
}

/// The index entry `e` points into an edge store of `len` edges, and counts
/// what it points at; labels lie with their edges.
pub open spec fn entry_ok(e: MergeNode, len: nat) -> bool {
    &&& e.range.start <= e.range.end <= len
    &&& e.range.count == e.range.end - e.range.start
    &&& e.labels_start == e.range.start
    &&& e.labels_end == e.range.end
}

/// The adjacency list that the index entry `e` points at.
pub open spec fn entry_list(e: MergeNode, edges: Seq<StoredEdge<String>>) -> Seq<
    StoredEdge<String>,
> {
    edges.subrange(e.range.start as int, e.range.end as int)
}

/// The edges come in the order of their neighbours' data: by the sort key,
/// then by the id.
pub open spec fn datum_sorted<L>(list: Seq<StoredEdge<L>>) -> bool {
    forall|a: int, b: int|
        #![trigger list[a], list[b]]
        0 <= a < b < list.len() ==> list[a].other.spec_le(list[b].other)
}

/// Edges in the order of their neighbours' data are in the order of their
/// sort keys.
pub proof fn lemma_datum_sorted<L>(list: Seq<StoredEdge<L>>)
    requires
        datum_sorted(list),
    ensures
        sorted(list),
{
    assert forall|a: int, b: int| 0 <= a < b < list.len() implies crate::kway::key_le(
        (#[trigger] list[a]).spec_key(),
        (#[trigger] list[b]).spec_key(),
    ) by {
        assert(list[a].other.spec_le(list[b].other));
    }
}

/// The index rises strictly by node id, every entry points into the edge
/// store, and every adjacency list is sorted by its neighbours' data.
pub open spec fn csr_wf(nodes: Seq<MergeNode>, edges: Seq<StoredEdge<String>>) -> bool {
    &&& strictly_sorted(nodes)
    &&& forall|t: int|
        0 <= t < nodes.len() ==> entry_ok(#[trigger] nodes[t], edges.len()) && datum_sorted(
            entry_list(nodes[t], edges),
        )
}

/// The index has an entry for the node `id`.
pub open spec fn has_node(nodes: Seq<MergeNode>, id: NodeID) -> bool {
    exists|t: int| 0 <= t < nodes.len() && (#[trigger] nodes[t]).node == id
}

/// The adjacency list of the node `id`; empty where the index lacks it.
pub open spec fn csr_edges_of(nodes: Seq<MergeNode>, edges: Seq<StoredEdge<String>>, id: NodeID) -> Seq<
    StoredEdge<String>,
> {
    if has_node(nodes, id) {
        entry_list(nodes[choose|t: int| 0 <= t < nodes.len() && (#[trigger] nodes[t]).node == id], edges)
    } else {
        Seq::empty()
    }
}

/// Each index entry leads to the adjacency list of its node.
pub proof fn lemma_csr_edges_at(nodes: Seq<MergeNode>, edges: Seq<StoredEdge<String>>, t: int)
    requires
        strictly_sorted(nodes),
        0 <= t < nodes.len(),
    ensures
        has_node(nodes, nodes[t].node),
        csr_edges_of(nodes, edges, nodes[t].node) == entry_list(nodes[t], edges),
{
    let id = nodes[t].node;
    assert(nodes[t].node == id);
    let c = choose|c: int| 0 <= c < nodes.len() && (#[trigger] nodes[c]).node == id;
    if c < t {
        assert(crate::kway::key_lt(nodes[c].spec_key(), nodes[t].spec_key()));
    }
    if t < c {
        assert(crate::kway::key_lt(nodes[t].spec_key(), nodes[c].spec_key()));
    }
}

/// The adjacency lists of a well-formed adjacency are sorted.
pub proof fn lemma_csr_edges_sorted(nodes: Seq<MergeNode>, edges: Seq<StoredEdge<String>>, id: NodeID)
    requires
        csr_wf(nodes, edges),
    ensures
        datum_sorted(csr_edges_of(nodes, edges, id)),
        sorted(csr_edges_of(nodes, edges, id)),
{
    if has_node(nodes, id) {
        let c = choose|c: int| 0 <= c < nodes.len() && (#[trigger] nodes[c]).node == id;
        assert(entry_ok(nodes[c], edges.len()));
    }
    lemma_datum_sorted(csr_edges_of(nodes, edges, id));
}

/// A copy of `e`.
pub fn clone_edge(e: &StoredEdge<String>) -> (res: StoredEdge<String>)
    ensures
        res == *e,
{
    StoredEdge { other: e.other, label: e.label.clone(), rel: e.rel }
}

/// One direction of a segment: the node index and the edge store.
pub struct Adjacency {
    nodes: Vec<MergeNode>,
    edges: Vec<StoredEdge<String>>,
}

impl Adjacency {
    /// The index rises strictly, points into the edge store, and every
    /// adjacency list is sorted.
    pub closed spec fn wf(&self) -> bool {
        csr_wf(self.nodes@, self.edges@)
    }

    /// The node index.
    pub closed spec fn index(&self) -> Seq<MergeNode> {
        self.nodes@
    }

    /// The adjacency list of the node `id`; empty where the index lacks it.
    pub closed spec fn edges_of(&self, id: NodeID) -> Seq<StoredEdge<String>> {
        csr_edges_of(self.nodes@, self.edges@, id)
    }

    /// The adjacency list that the index entry `e` points at.
    pub closed spec fn list_at(&self, e: MergeNode) -> Seq<StoredEdge<String>> {
        entry_list(e, self.edges@)
    }

    /// The index entry `e` points into this edge store.
    pub closed spec fn holds(&self, e: MergeNode) -> bool {
        entry_ok(e, self.edges@.len())
    }

    /// Adjacency lists are sorted by their neighbours' data.
    pub proof fn lemma_edges_sorted(&self, id: NodeID)
        requires
            self.wf(),
        ensures
            datum_sorted(self.edges_of(id)),
            sorted(self.edges_of(id)),
    {
        lemma_csr_edges_sorted(self.nodes@, self.edges@, id);
    }

    /// The index rises strictly, and each entry leads to the list of its node.
    pub proof fn lemma_index(&self)
        requires
            self.wf(),
        ensures
            strictly_sorted(self.index()),
            forall|t: int|
                0 <= t < self.index().len() ==> self.edges_of((#[trigger] self.index()[t]).node)
                    == self.list_at(self.index()[t]) && datum_sorted(
                    self.list_at(self.index()[t]),
                ) && self.holds(self.index()[t]),
            forall|id: NodeID| !has_node(self.index(), id) ==> #[trigger] self.edges_of(id) == Seq::<
                StoredEdge<String>,
            >::empty(),
    {
        assert forall|t: int| 0 <= t < self.index().len() implies self.edges_of(
            (#[trigger] self.index()[t]).node,
        ) == self.list_at(self.index()[t]) && datum_sorted(self.list_at(self.index()[t]))
            && self.holds(self.index()[t]) by {
            lemma_csr_edges_at(self.nodes@, self.edges@, t);
            assert(entry_ok(self.nodes@[t], self.edges@.len()));
        }
    }

    /// No adjacency list has more edges than an `EdgeRange` can count.
    pub proof fn lemma_len(&self, id: NodeID)
        requires
            self.wf(),
        ensures
            self.edges_of(id).len() <= u32::MAX,
    {
        if has_node(self.nodes@, id) {
            let c = choose|c: int| 0 <= c < self.nodes@.len() && (#[trigger] self.nodes@[c]).node == id;
            assert(entry_ok(self.nodes@[c], self.edges@.len()));
        }
    }

    /// An adjacency without nodes.
    pub fn empty() -> (res: Adjacency)
        ensures
            res.wf(),
            res.index() == Seq::<MergeNode>::empty(),
            forall|id: NodeID| #[trigger] res.edges_of(id) == Seq::<StoredEdge<String>>::empty(),
    {
        Adjacency { nodes: Vec::new(), edges: Vec::new() }
    }

    /// The adjacency with the index `nodes` into the edge store `edges`.
    pub fn from_parts(nodes: Vec<MergeNode>, edges: Vec<StoredEdge<String>>) -> (res: Adjacency)
        requires
            csr_wf(nodes@, edges@),
        ensures
            res.wf(),
            res.index() == nodes@,
            forall|id: NodeID| #[trigger] res.edges_of(id) == csr_edges_of(nodes@, edges@, id),
    {
        Adjacency { nodes, edges }
    }

    /// A copy of the node index.
    pub fn nodes(&self) -> (res: Vec<MergeNode>)
        ensures
            res@ == self.index(),
    {
        let mut res: Vec<MergeNode> = Vec::new();
        let n = self.nodes.len();
        let mut t: usize = 0;
        while t < n
            invariant
                t <= n,
                n == self.nodes.len(),
                res@ == self.nodes@.take(t as int),
            decreases n - t,
        {
            res.push(self.nodes[t]);
            assert(self.nodes@.take(t + 1) =~= self.nodes@.take(t as int).push(self.nodes@[t as int]));
            t += 1;
        }
        assert(self.nodes@.take(n as int) =~= self.nodes@);
        res
    }

    /// Where the index holds the node `id`.
    fn find(&self, id: NodeID) -> (res: Option<usize>)
        requires
            self.wf(),
        ensures
            match res {
                Some(t) => t < self.nodes.len() && self.nodes[t as int].node == id,
                None => !has_node(self.nodes@, id),
            },
    {
        let mut lo: usize = 0;
        let mut hi: usize = self.nodes.len();
        while lo < hi
            invariant
                lo <= hi <= self.nodes.len(),
                self.wf(),
                forall|t: int| 0 <= t < lo ==> (#[trigger] self.nodes[t]).node.0 < id.0,
                forall|t: int| hi <= t < self.nodes.len() ==> (#[trigger] self.nodes[t]).node.0 > id.0,
            decreases hi - lo,
        {
            let mid = lo + (hi - lo) / 2;
            let at = self.nodes[mid].node.0;
            if at == id.0 {
                return Some(mid);
            } else if at < id.0 {
                assert forall|t: int| 0 <= t < mid + 1 implies (#[trigger] self.nodes[t]).node.0
                    < id.0 by {
                    if t < mid {
                        assert(crate::kway::key_lt(
                            self.nodes@[t].spec_key(),
                            self.nodes@[mid as int].spec_key(),
                        ));
                    }
                }
                lo = mid + 1;
            } else {
                assert forall|t: int| mid <= t < self.nodes.len() implies (
                #[trigger] self.nodes[t]).node.0 > id.0 by {
                    if mid < t {
                        assert(crate::kway::key_lt(
                            self.nodes@[mid as int].spec_key(),
                            self.nodes@[t].spec_key(),
                        ));
                    }
                }
                hi = mid;
            }
        }
        None
    }

    /// Whether the index holds the node `id`.
    pub fn contains(&self, id: &NodeID) -> (res: bool)
        requires
            self.wf(),
        ensures
            res == has_node(self.index(), *id),
    {
        self.find(*id).is_some()
    }

    /// The first edges of the list that the entry `e` points at, as many as
    /// `limit` lets through, with their labels.
    pub fn load(&self, e: &MergeNode, limit: &EdgeLimit) -> (res: Vec<StoredEdge<String>>)
        requires
            self.holds(*e),
        ensures
            res@ == limit.spec_apply(self.list_at(*e)),
    {
        let total = self.edges.len();
        let start = e.range.start as usize;
        let len = (e.range.end - e.range.start) as usize;
        let keep = limit.count(len);
        let ghost list = entry_list(*e, self.edges@);
        let mut res: Vec<StoredEdge<String>> = Vec::new();
        let mut j: usize = 0;
        while j < keep
            invariant
                j <= keep <= len,
                start + len <= self.edges.len(),
                list == self.edges@.subrange(start as int, start + len),
                res@ == list.take(j as int),
            decreases keep - j,
        {
            res.push(clone_edge(&self.edges[start + j]));
            assert(list.take(j + 1) =~= list.take(j as int).push(list[j as int]));
            j += 1;
        }
        res
    }

    /// The first edges of the node `id`, as many as `limit` lets through, with
    /// their labels. Empty where the index lacks the node.
    pub fn edges_with_label(&self, id: &NodeID, limit: &EdgeLimit) -> (res: Vec<StoredEdge<String>>)
        requires
            self.wf(),
        ensures
            res@ == limit.spec_apply(self.edges_of(*id)),
    {
        match self.find(*id) {
            None => {
                assert(limit.spec_apply(self.edges_of(*id)) =~= Seq::<StoredEdge<String>>::empty());
                Vec::new()
            },
            Some(t) => {
                proof {
                    lemma_csr_edges_at(self.nodes@, self.edges@, t as int);
                }
                let e = self.nodes[t];
                self.load(&e, limit)
            },
        }
    }

    /// The first edges of the node `id`, as many as `limit` lets through,
    /// without their labels. Empty where the index lacks the node.
    pub fn edges(&self, id: &NodeID, limit: &EdgeLimit) -> (res: Vec<StoredEdge<()>>)
        requires
            self.wf(),
        ensures
            res@ == unlabeled(limit.spec_apply(self.edges_of(*id))),
    {
        match self.find(*id) {
            None => {
                assert(unlabeled(limit.spec_apply(self.edges_of(*id))) =~= Seq::<
                    StoredEdge<()>,
                >::empty());
                Vec::new()
            },
            Some(t) => {
                proof {
                    lemma_csr_edges_at(self.nodes@, self.edges@, t as int);
                }
                let e = self.nodes[t];
                assert(entry_ok(e, self.edges@.len()));
                let total = self.edges.len();
                let start = e.range.start as usize;
                let len = (e.range.end - e.range.start) as usize;
                let keep = limit.count(len);
                let ghost list = entry_list(e, self.edges@);
                let mut res: Vec<StoredEdge<()>> = Vec::new();
                let mut j: usize = 0;
                while j < keep
                    invariant
                        j <= keep <= len,
                        start + len <= self.edges.len(),
                        list == self.edges@.subrange(start as int, start + len),
                        res@ == unlabeled(list.take(j as int)),
                    decreases keep - j,
                {
                    let stored = &self.edges[start + j];
                    res.push(StoredEdge::new(stored.other, stored.rel));
                    assert(res@ =~= unlabeled(list.take(j + 1)));
                    j += 1;
                }
                res
            },
        }
    }
}

} // verus!

verus! {

/// The pages of `host` among the first `n` entries of `pages`, in their order.
pub open spec fn pages_of(pages: Seq<PageEntry>, host: NodeID, n: nat) -> Seq<NodeID>
    decreases n,
{
    if n == 0 {
        Seq::empty()
    } else if pages[n - 1].host == host {
        pages_of(pages, host, (n - 1) as nat).push(pages[n - 1].page)
    } else {
        pages_of(pages, host, (n - 1) as nat)
    }
}

/// The edges of the first `n` nodes of an index, node by node.
pub open spec fn scan_upto(nodes: Seq<MergeNode>, edges: Seq<StoredEdge<String>>, n: nat) -> Seq<
    Edge<()>,
>
    decreases n,
{
    if n == 0 {
        Seq::empty()
    } else {
        scan_upto(nodes, edges, (n - 1) as nat) + spec_edges(
            nodes[n - 1].node,
            unlabeled(entry_list(nodes[n - 1], edges)),
            true,
        )
    }
}

impl Adjacency {
    /// All edges, node by node in the order of the index, as edges that
    /// leave the node.
    pub closed spec fn spec_scan(&self) -> Seq<Edge<()>> {
        scan_upto(self.nodes@, self.edges@, self.nodes@.len())
    }

    /// The edges of the first `n` nodes of the index: for each node its
    /// adjacency list without the labels, as edges that leave the node.
    pub open spec fn scan_of(&self, n: nat) -> Seq<Edge<()>>
        decreases n,
    {
        if n == 0 {
            Seq::empty()
        } else {
            self.scan_of((n - 1) as nat) + spec_edges(
                self.index()[n - 1].node,
                unlabeled(self.edges_of(self.index()[n - 1].node)),
                true,
            )
        }
    }

    /// What a scan holds: the adjacency lists of the nodes of the index, one
    /// after the other.
    pub proof fn law_scan(&self)
        requires
            self.wf(),
        ensures
            self.spec_scan() == self.scan_of(self.index().len()),
    {
        self.lemma_scan_upto(self.nodes@.len());
    }

    proof fn lemma_scan_upto(&self, n: nat)
        requires
            self.wf(),
            n <= self.nodes@.len(),
        ensures
            scan_upto(self.nodes@, self.edges@, n) == self.scan_of(n),
        decreases n,
    {
        if n > 0 {
            self.lemma_scan_upto((n - 1) as nat);
            self.lemma_index();
            assert(self.edges_of(self.index()[n - 1].node) == self.list_at(self.index()[n - 1]));
        }
    }

    /// All edges, node by node: the adjacency lists of the nodes of the
    /// index, one after the other.
    pub fn scan(&self) -> (res: Vec<Edge<()>>)
        requires
            self.wf(),
        ensures
            res@ == self.spec_scan(),
            res@ == self.scan_of(self.index().len()),
    {
        proof {
            self.law_scan();
        }
        let n = self.nodes.len();
        let total = self.edges.len();
        let mut res: Vec<Edge<()>> = Vec::new();
        let mut t: usize = 0;
        while t < n
            invariant
                t <= n,
                n == self.nodes.len(),
                total == self.edges.len(),
                self.wf(),
                res@ == scan_upto(self.nodes@, self.edges@, t as nat),
            decreases n - t,
        {
            let e = self.nodes[t];
            assert(entry_ok(e, self.edges@.len()));
            let start = e.range.start as usize;
            let end = e.range.end as usize;
            let ghost base = res@;
            let ghost list = unlabeled(entry_list(e, self.edges@));
            let mut j: usize = start;
            while j < end
                invariant
                    start <= j <= end <= total,
                    total == self.edges.len(),
                    list == unlabeled(entry_list(e, self.edges@)),
                    start == e.range.start,
                    end == e.range.end,
                    res@ == base + spec_edges(e.node, list.take(j - start), true),
                decreases end - j,
            {
                let stored = &self.edges[j];
                res.push(Edge { from: e.node, to: stored.other.id, label: (), rel: stored.rel });
                assert(res@ =~= base + spec_edges(e.node, list.take(j + 1 - start), true));
                j += 1;
            }
            assert(list.take(end - start) =~= list);
            t += 1;
        }
        res
    }
}

/// An immutable run of edges, indexed by the node they leave and by the node
/// they reach, with an index of the pages of each host.
pub struct Segment {
    id: String,
    compression: Compression,
    forward: Adjacency,
    reverse: Adjacency,
    pages: Vec<PageEntry>,
}

impl Segment {
    /// Both directions are well formed, and the pages rise strictly.
    pub closed spec fn wf(&self) -> bool {
        &&& self.forward.wf()
        &&& self.reverse.wf()
        &&& strictly_sorted(self.pages@)
    }

    /// The id of the segment.
    pub closed spec fn spec_id(&self) -> Seq<char> {
        self.id@
    }

    /// How the segment is to be packed when it is written out.
    pub closed spec fn spec_compression(&self) -> Compression {
        self.compression
    }

    /// The index by the node that edges leave.
    pub closed spec fn spec_forward(&self) -> Adjacency {
        self.forward
    }

    /// The index by the node that edges reach.
    pub closed spec fn spec_reverse(&self) -> Adjacency {
        self.reverse
    }

    /// The index of pages by host.
    pub closed spec fn spec_pages(&self) -> Seq<PageEntry> {
        self.pages@
    }

    /// The edges that leave `node`, by the node they reach.
    pub open spec fn spec_outgoing(&self, node: NodeID) -> Seq<StoredEdge<String>> {
        self.spec_forward().edges_of(node)
    }

    /// The edges that reach `node`, by the node they leave.
    pub open spec fn spec_ingoing(&self, node: NodeID) -> Seq<StoredEdge<String>> {
        self.spec_reverse().edges_of(node)
    }

    /// The edges at `node` in one direction.
    pub open spec fn spec_adjacent(&self, node: NodeID, outgoing: bool) -> Seq<StoredEdge<String>> {
        if outgoing {
            self.spec_outgoing(node)
        } else {
            self.spec_ingoing(node)
        }
    }

    /// What a well-formed segment is made of.
    pub proof fn lemma_wf(&self)
        requires
            self.wf(),
        ensures
            self.spec_forward().wf(),
            self.spec_reverse().wf(),
            strictly_sorted(self.spec_pages()),
    {
    }

    /// A segment of the given parts. The two indices are taken as they are
    /// given: whether they hold the same edges is a property of its own,
    /// `mirror::mirrored`, which built segments have.
    pub fn new(
        id: String,
        compression: Compression,
        forward: Adjacency,
        reverse: Adjacency,
        pages: Vec<PageEntry>,
    ) -> (res: Segment)
        requires
            forward.wf(),
            reverse.wf(),
            strictly_sorted(pages@),
        ensures
            res.wf(),
            res.spec_id() == id@,
            res.spec_compression() == compression,
            res.spec_forward() == forward,
            res.spec_reverse() == reverse,
            res.spec_pages() == pages@,
    {
        Segment { id, compression, forward, reverse, pages }
    }

    /// The id of the segment.
    pub fn id(&self) -> (res: String)
        ensures
            res@ == self.spec_id(),
    {
        self.id.clone()
    }

    /// How the segment is to be packed when it is written out.
    pub fn compression(&self) -> (res: Compression)
        ensures
            res == self.spec_compression(),
    {
        self.compression
    }

    /// The first edges that leave `node`, as many as `limit` lets through,
    /// without their labels.
    pub fn outgoing_edges(&self, node: &NodeID, limit: &EdgeLimit) -> (res: Vec<StoredEdge<()>>)
        requires
            self.wf(),
        ensures
            res@ == unlabeled(limit.spec_apply(self.spec_outgoing(*node))),
    {
        self.forward.edges(node, limit)
    }

    /// The first edges that leave `node`, as many as `limit` lets through,
    /// with their labels.
    pub fn outgoing_edges_with_label(&self, node: &NodeID, limit: &EdgeLimit) -> (res: Vec<
        StoredEdge<String>,
    >)
        requires
            self.wf(),
        ensures
            res@ == limit.spec_apply(self.spec_outgoing(*node)),
    {
        self.forward.edges_with_label(node, limit)
    }

    /// The first edges that reach `node`, as many as `limit` lets through,
    /// without their labels.
    pub fn ingoing_edges(&self, node: &NodeID, limit: &EdgeLimit) -> (res: Vec<StoredEdge<()>>)
        requires
            self.wf(),
        ensures
            res@ == unlabeled(limit.spec_apply(self.spec_ingoing(*node))),
    {
        self.reverse.edges(node, limit)
    }

    /// The first edges that reach `node`, as many as `limit` lets through,
    /// with their labels.
    pub fn ingoing_edges_with_label(&self, node: &NodeID, limit: &EdgeLimit) -> (res: Vec<
        StoredEdge<String>,
    >)
        requires
            self.wf(),
        ensures
            res@ == limit.spec_apply(self.spec_ingoing(*node)),
    {
        self.reverse.edges_with_label(node, limit)
    }

    /// The edges at `node` in one direction, with their labels.
    pub fn adjacent_with_label(&self, node: &NodeID, outgoing: bool) -> (res: Vec<StoredEdge<String>>)
        requires
            self.wf(),
        ensures
            res@ == self.spec_adjacent(*node, outgoing),
    {
        let res = if outgoing {
            self.forward.edges_with_label(node, &EdgeLimit::Unlimited)
        } else {
            self.reverse.edges_with_label(node, &EdgeLimit::Unlimited)
        };
        assert(res@ =~= self.spec_adjacent(*node, outgoing));
        res
    }

    /// The pages of the host `host`, in rising order.
    pub fn pages_by_host(&self, host: &NodeID) -> (res: Vec<NodeID>)
        ensures
            res@ == pages_of(self.spec_pages(), *host, self.spec_pages().len()),
    {
        let n = self.pages.len();
        let mut res: Vec<NodeID> = Vec::new();
        let mut i: usize = 0;
        while i < n
            invariant
                i <= n,
                n == self.pages.len(),
                res@ == pages_of(self.pages@, *host, i as nat),
            decreases n - i,
        {
            if self.pages[i].host.0 == host.0 {
                res.push(self.pages[i].page);
            }
            i += 1;
        }
        res
    }

    /// Every edge of the segment, as an edge that leaves its node; node by
    /// node in the order of the node ids.
    pub fn edges(&self) -> (res: Vec<Edge<()>>)
        requires
            self.wf(),
        ensures
            res@ == self.spec_forward().spec_scan(),
    {
        self.forward.scan()
    }
}

} // verus!

verus! {

impl Segment {
    /// The index of one direction.
    pub open spec fn spec_direction(&self, outgoing: bool) -> Adjacency {
        if outgoing {
            self.spec_forward()
        } else {
            self.spec_reverse()
        }
    }

    /// The index of one direction.
    pub fn adjacency(&self, outgoing: bool) -> (res: &Adjacency)
        ensures
            *res == self.spec_direction(outgoing),
    {
        if outgoing {
            &self.forward
        } else {
            &self.reverse
        }
    }

    /// A copy of the index of pages by host.
    pub fn pages(&self) -> (res: Vec<PageEntry>)
        ensures
            res@ == self.spec_pages(),
    {
        let n = self.pages.len();
        let mut res: Vec<PageEntry> = Vec::new();
        let mut i: usize = 0;
        while i < n
            invariant
                i <= n,
                n == self.pages.len(),
                res@ == self.pages@.take(i as int),
            decreases n - i,
        {
            res.push(self.pages[i]);
            assert(self.pages@.take(i + 1) =~= self.pages@.take(i as int).push(self.pages@[i as int]));
            i += 1;
        }
        assert(self.pages@.take(n as int) =~= self.pages@);
        res
    }

    /// Takes the segment apart: its id, its compression, the index by the
    /// node that edges leave, the index by the node they reach, and the pages.
    pub fn into_parts(self) -> (parts: (String, Compression, Adjacency, Adjacency, Vec<PageEntry>))
        ensures
            parts.0@ == self.spec_id(),
            parts.1 == self.spec_compression(),
            parts.2 == self.spec_forward(),
            parts.3 == self.spec_reverse(),
            parts.4@ == self.spec_pages(),
    {
        (self.id, self.compression, self.forward, self.reverse, self.pages)
    }
}

} // verus!

verus! {

impl Segment {
    /// Prepares the segment for reading. In memory nothing is to prepare:
    /// the segment stays as it is.
    pub fn optimize_read(&mut self)
        ensures
            *final(self) == *old(self),
    {
    }

    /// Whether the segment carries the id `id`.
    pub fn has_id(&self, id: &String) -> (res: bool)
        ensures
            res == (self.spec_id() == id@),
    {
        self.id == *id
    }
}

/// A page is among the pages of a host exactly when the index holds the
/// entry of host and page.
pub proof fn lemma_pages_of(pages: Seq<PageEntry>, host: NodeID, n: nat)
    requires
        n <= pages.len(),
    ensures
        forall|page: NodeID|
            pages_of(pages, host, n).contains(page) <==> exists|j: int|
                0 <= j < n && #[trigger] pages[j] == (PageEntry { host, page }),
    decreases n,
{
    if n > 0 {
        let prev = pages_of(pages, host, (n - 1) as nat);
        let cur = pages_of(pages, host, n);
        lemma_pages_of(pages, host, (n - 1) as nat);
        assert forall|page: NodeID|
            cur.contains(page) <==> exists|j: int|
                0 <= j < n && #[trigger] pages[j] == (PageEntry { host, page }) by {
            let entry = PageEntry { host, page };
            if cur.contains(page) {
                let t = choose|t: int| 0 <= t < cur.len() && cur[t] == page;
                if t < prev.len() {
                    assert(prev[t] == page);
                    assert(prev.contains(page));
                    let j = choose|j: int| 0 <= j < n - 1 && #[trigger] pages[j] == entry;
                    assert(pages[j] == entry);
                } else {
                    assert(pages[n - 1] == entry);
                }
            }
            if exists|j: int| 0 <= j < n && #[trigger] pages[j] == entry {
                let j = choose|j: int| 0 <= j < n && #[trigger] pages[j] == entry;
                if j < n - 1 {
                    assert(prev.contains(page));
                    let t = choose|t: int| 0 <= t < prev.len() && prev[t] == page;
                    assert(cur[t] == page);
                } else {
                    assert(cur[cur.len() - 1] == page);
                }
            }
        }
    }
}

} // verus!

verus! {

/// Neighbouring index entries rise, which makes the whole index rise.
proof fn lemma_index_rises(nodes: Seq<MergeNode>)
    requires
        forall|t: int| 0 < t < nodes.len() ==> nodes[t - 1].node.0 < (#[trigger] nodes[t]).node.0,
    ensures
        strictly_sorted(nodes),
{
    assert forall|a: int, b: int| 0 <= a < b < nodes.len() implies crate::kway::key_lt(
        (#[trigger] nodes[a]).spec_key(),
        (#[trigger] nodes[b]).spec_key(),
    ) by {
        lemma_index_rises_between(nodes, a, b);
    }
}

proof fn lemma_index_rises_between(nodes: Seq<MergeNode>, a: int, b: int)
    requires
        forall|t: int| 0 < t < nodes.len() ==> nodes[t - 1].node.0 < (#[trigger] nodes[t]).node.0,
        0 <= a < b < nodes.len(),
    ensures
        nodes[a].node.0 < nodes[b].node.0,
    decreases b - a,
{
    assert(nodes[b - 1].node.0 < nodes[b].node.0);
    if a < b - 1 {
        lemma_index_rises_between(nodes, a, b - 1);
    }
}

/// Neighbouring edges never fall, which makes the whole list sorted.
proof fn lemma_list_sorted(list: Seq<StoredEdge<String>>, a: int, b: int)
    requires
        forall|j: int| 0 < j < list.len() ==> list[j - 1].other.spec_le((#[trigger] list[j]).other),
        0 <= a < b < list.len(),
    ensures
        list[a].other.spec_le(list[b].other),
    decreases b - a,
{
    assert(list[b - 1].other.spec_le(list[b].other));
    if a < b - 1 {
        lemma_list_sorted(list, a, b - 1);
    }
}

/// Whether the edges from `start` to `end` are sorted by their neighbours'
/// data.
fn run_sorted(edges: &Vec<StoredEdge<String>>, start: usize, end: usize) -> (ok: bool)
    requires
        start <= end <= edges.len(),
    ensures
        ok == datum_sorted(edges@.subrange(start as int, end as int)),
{
    let ghost list = edges@.subrange(start as int, end as int);
    if start == end {
        return true;
    }
    let mut j: usize = start + 1;
    while j < end
        invariant
            start < j <= end <= edges.len(),
            list == edges@.subrange(start as int, end as int),
            forall|i: int|
                0 < i < j - start ==> list[i - 1].other.spec_le((#[trigger] list[i]).other),
        decreases end - j,
    {
        let prev = edges[j - 1].other;
        let cur = edges[j].other;
        if cur.lt(&prev) {
            assert(list[j - start - 1] == edges@[j - 1]);
            assert(list[j - start] == edges@[j as int]);
            assert(!list[j - start - 1].other.spec_le(list[j - start].other));
            return false;
        }
        assert(list[j - start - 1] == edges@[j - 1]);
        assert(list[j - start] == edges@[j as int]);
        j += 1;
    }
    proof {
        assert forall|a: int, b: int| 0 <= a < b < list.len() implies (
        #[trigger] list[a]).other.spec_le((#[trigger] list[b]).other) by {
            lemma_list_sorted(list, a, b);
        }
    }
    true
}

impl Adjacency {
    /// The edge store: the adjacency lists, one after the other.
    pub fn edge_store(&self) -> (res: &Vec<StoredEdge<String>>)
        ensures
            forall|id: NodeID| #[trigger] self.edges_of(id) == csr_edges_of(self.index(), res@, id),
            self.wf() ==> csr_wf(self.index(), res@),
    {
        &self.edges
    }

    /// Takes the adjacency apart: the node index and the edge store.
    pub fn into_parts(self) -> (parts: (Vec<MergeNode>, Vec<StoredEdge<String>>))
        ensures
            parts.0@ == self.index(),
            self.wf() ==> csr_wf(parts.0@, parts.1@),
            forall|id: NodeID| #[trigger] self.edges_of(id) == csr_edges_of(parts.0@, parts.1@, id),
    {
        (self.nodes, self.edges)
    }

    /// The adjacency with the index `nodes` into the edge store `edges`.
    ///
    /// It is refused as corrupt where the index does not rise strictly by
    /// node id, where an entry does not point into the edge store or
    /// miscounts, and where an adjacency list is not sorted.
    pub fn open(nodes: Vec<MergeNode>, edges: Vec<StoredEdge<String>>) -> (res: Result<
        Adjacency,
        StoreError,
    >)
        ensures
            res is Ok <==> csr_wf(nodes@, edges@),
            res matches Ok(adj) ==> adj.wf() && adj.index() == nodes@ && forall|id: NodeID|
                #[trigger] adj.edges_of(id) == csr_edges_of(nodes@, edges@, id),
            res matches Err(e) ==> e == StoreError::Corrupt,
    {
        let n = nodes.len();
        let total = edges.len();
        let mut t: usize = 0;
        while t < n
            invariant
                t <= n,
                n == nodes.len(),
                total == edges.len(),
                forall|u: int| 0 < u < t ==> nodes@[u - 1].node.0 < (#[trigger] nodes@[u]).node.0,
                forall|u: int|
                    0 <= u < t ==> entry_ok(#[trigger] nodes@[u], edges@.len())
                        && datum_sorted(entry_list(nodes@[u], edges@)),
            decreases n - t,
        {
            let e = nodes[t];
            if t > 0 && nodes[t - 1].node.0 >= e.node.0 {
                proof {
                    if strictly_sorted(nodes@) {
                        assert(crate::kway::key_lt(
                            nodes@[t - 1].spec_key(),
                            nodes@[t as int].spec_key(),
                        ));
                    }
                }
                return Err(StoreError::Corrupt);
            }
            let fits = e.range.start <= e.range.end && e.range.end <= total as u64
                && e.range.end - e.range.start == e.range.count as u64 && e.labels_start
                == e.range.start && e.labels_end == e.range.end;
            if !fits {
                assert(!entry_ok(nodes@[t as int], edges@.len()));
                return Err(StoreError::Corrupt);
            }
            if !run_sorted(&edges, e.range.start as usize, e.range.end as usize) {
                assert(!datum_sorted(entry_list(nodes@[t as int], edges@)));
                return Err(StoreError::Corrupt);
            }
            t += 1;
        }
        proof {
            lemma_index_rises(nodes@);
        }
        Ok(Adjacency { nodes, edges })
    }
}

impl Segment {
    /// The segment of the given parts.
    ///
    /// It is refused as corrupt where the pages do not rise strictly. The two
    /// indices are not held against one another: a compaction of segments in
    /// which neighbours share a sort key may hold an edge in one index only,
    /// and is still a segment to be opened.
    pub fn open(
        id: String,
        compression: Compression,
        forward: Adjacency,
        reverse: Adjacency,
        pages: Vec<PageEntry>,
    ) -> (res: Result<Segment, StoreError>)
        requires
            forward.wf(),
            reverse.wf(),
        ensures
            res is Ok <==> strictly_sorted(pages@),
            res matches Ok(seg) ==> seg.wf() && seg.spec_id() == id@ && seg.spec_compression()
                == compression && seg.spec_forward() == forward && seg.spec_reverse() == reverse
                && seg.spec_pages() == pages@,
            res matches Err(e) ==> e == StoreError::Corrupt,
    {
        let n = pages.len();
        let mut j: usize = 1;
        while j < n
            invariant
                1 <= j,
                n == pages.len(),
                forall|i: int|
                    0 < i < j && i < n ==> crate::kway::key_lt(
                        pages@[i - 1].spec_key(),
                        (#[trigger] pages@[i]).spec_key(),
                    ),
            decreases n - j,
        {
            let prev = pages[j - 1];
            let cur = pages[j];
            let rising = prev.host.0 < cur.host.0 || (prev.host.0 == cur.host.0 && prev.page.0
                < cur.page.0);
            if !rising {
                proof {
                    if strictly_sorted(pages@) {
                        assert(crate::kway::key_lt(
                            pages@[j - 1].spec_key(),
                            pages@[j as int].spec_key(),
                        ));
                    }
                }
                return Err(StoreError::Corrupt);
            }
            j += 1;
        }
        proof {
            assert forall|a: int, b: int| 0 <= a < b < pages@.len() implies crate::kway::key_lt(
                (#[trigger] pages@[a]).spec_key(),
                (#[trigger] pages@[b]).spec_key(),
            ) by {
                lemma_pages_rise(pages@, a, b);
            }
        }
        Ok(Segment { id, compression, forward, reverse, pages })
    }
}

proof fn lemma_pages_rise(pages: Seq<PageEntry>, a: int, b: int)
    requires
        forall|i: int|
            0 < i < pages.len() ==> crate::kway::key_lt(
                pages[i - 1].spec_key(),
                (#[trigger] pages[i]).spec_key(),
            ),
        0 <= a < b < pages.len(),
    ensures
        crate::kway::key_lt(pages[a].spec_key(), pages[b].spec_key()),
    decreases b - a,
{
    assert(crate::kway::key_lt(pages[b - 1].spec_key(), pages[b].spec_key()));
    if a < b - 1 {
        lemma_pages_rise(pages, a, b - 1);
    }
}

} // verus!
