//! The writer: it takes edges, gives each node its id and its sort key, and
//! commits what it has taken as a new segment of its graph.

use crate::admin::ids_collide;
use crate::laws::{
    all_self_keyed, edges_self_keyed, lemma_built_self_keyed, lemma_union_self_keyed, self_keyed,
};
use crate::mirror::{
    all_linked, all_mirrored, law_built_is_mirrored, lemma_all_mirrored_linked, mirrored,
};
use crate::builder::{
    anchor,
    anchors,
    is_adjacency_of,
    is_built,
    is_stable_order,
    law_few_edges_fit,
    stored,
    crowded,
    InsertableEdge,
};
use crate::compact::{directed, segments_wf};
use crate::edge::{NodeDatum, PageEntry, RelFlags, MAX_LABEL_LENGTH};
use crate::graph::{
    adjacency_resolves,
    distinct,
    named,
    resolves,
    segment_ids,
    GraphError,
    Webgraph,
};
use crate::node::{Node, NodeID};
use crate::outside::fresh_segment_id;
use crate::ranks::RankStore;
use crate::segment::{has_node, Compression, Segment};
use crate::text::{to_chars, to_string};
use vstd::prelude::*;
use vstd::utf8::{encode_scalar, encode_utf8};

verus! {

/// The number of bytes that `c` takes in UTF-8.
pub open spec fn utf8_width(c: char) -> nat {
    let v = c as u32;
    if v < 0x80 {
        1
    } else if v < 0x800 {
        2
    } else if v < 0x10000 {
        3
    } else {
        4
    }
}

/// How many characters at the start of `s` fit into `budget` bytes of UTF-8.
pub open spec fn fitting(s: Seq<char>, budget: nat) -> nat
    decreases s.len(),
{
    if s.len() == 0 || utf8_width(s[0]) > budget {
        0
    } else {
        1 + fitting(s.drop_first(), (budget - utf8_width(s[0])) as nat)
    }
}

/// The label `s` cut to `max` bytes of UTF-8, at a character.
pub open spec fn spec_cap(s: Seq<char>, max: nat) -> Seq<char> {
    s.take(fitting(s, max) as int)
}

/// No more characters fit than there are.
pub proof fn lemma_fitting(s: Seq<char>, budget: nat)
    ensures
        fitting(s, budget) <= s.len(),
    decreases s.len(),
{
    if !(s.len() == 0 || utf8_width(s[0]) > budget) {
        lemma_fitting(s.drop_first(), (budget - utf8_width(s[0])) as nat);
    }
}

/// A capped label takes no more than `max` bytes, and a label that takes no
/// more is not cut.
pub proof fn lemma_cap_bytes(s: Seq<char>, max: nat)
    ensures
        encode_utf8(spec_cap(s, max)).len() <= max,
        encode_utf8(s).len() <= max ==> spec_cap(s, max) == s,
    decreases s.len(),
{
    lemma_fitting(s, max);
    if s.len() == 0 {
        assert(spec_cap(s, max) =~= s);
    } else {
        let w = utf8_width(s[0]);
        vstd::utf8::char_is_scalar(s[0]);
        assert(encode_scalar(s[0] as u32).len() == w);
        if w > max {
            assert(spec_cap(s, max) =~= Seq::<char>::empty());
        } else {
            let rest = s.drop_first();
            let left = (max - w) as nat;
            lemma_cap_bytes(rest, left);
            lemma_fitting(rest, left);
            let capped = spec_cap(s, max);
            assert(capped.drop_first() =~= spec_cap(rest, left));
            assert(capped[0] == s[0]);
            if encode_utf8(s).len() <= max {
                assert(spec_cap(rest, left) == rest);
                assert(capped =~= s);
            }
        }
    }
}

/// The number of bytes that `c` takes in UTF-8.
fn width_of(c: char) -> (w: usize)
    ensures
        w == utf8_width(c),
{
    let v = c as u32;
    if v < 0x80 {
        1
    } else if v < 0x800 {
        2
    } else if v < 0x10000 {
        3
    } else {
        4
    }
}

/// The label cut to `MAX_LABEL_LENGTH` bytes of UTF-8, at a character.
pub fn cap_label(label: String) -> (res: String)
    ensures
        res@ == spec_cap(label@, MAX_LABEL_LENGTH as nat),
{
    let chars = to_chars(label.as_str());
    let n = chars.len();
    let mut budget: usize = MAX_LABEL_LENGTH;
    let mut keep: usize = 0;
    proof {
        assert(chars@.skip(0) =~= chars@);
    }
    while keep < n && width_of(chars[keep]) <= budget
        invariant
            keep <= n,
            n == chars.len(),
            budget <= MAX_LABEL_LENGTH,
            fitting(chars@, MAX_LABEL_LENGTH as nat) == keep + fitting(
                chars@.skip(keep as int),
                budget as nat,
            ),
        decreases n - keep,
    {
        proof {
            let left = chars@.skip(keep as int);
            assert(left[0] == chars@[keep as int]);
            assert(left.drop_first() =~= chars@.skip(keep + 1));
        }
        budget = budget - width_of(chars[keep]);
        keep += 1;
    }
    proof {
        let left = chars@.skip(keep as int);
        if keep < n {
            assert(left[0] == chars@[keep as int]);
        }
        assert(fitting(left, budget as nat) == 0);
    }
    if keep == n {
        assert(chars@.take(n as int) =~= chars@);
        return label;
    }
    let mut chars = chars;
    chars.truncate(keep);
    assert(chars@ =~= spec_cap(label@, MAX_LABEL_LENGTH as nat));
    to_string(&chars)
}

/// A writer of edges into a graph.
pub struct WebgraphWriter {
    graph: Webgraph,
    edges: Vec<InsertableEdge>,
    pages: Vec<PageEntry>,
    ranks: Option<RankStore>,
    compression: Compression,
}

/// The sort key of the node `node` whose host has the id `host`: the rank
/// of the host, or the node's own id where no rank of the host is known.
///
/// Edges are merged by the sort keys of their neighbours, so nodes that
/// share a sort key stand for one another when segments are compacted.
/// Without ranks every node has a sort key of its own.
pub open spec fn spec_sort_key(ranks: Option<Map<NodeID, u64>>, host: NodeID, node: NodeID) -> u64 {
    match ranks {
        Some(map) => if map.dom().contains(host) {
            map[host]
        } else {
            node.0
        },
        None => node.0,
    }
}

/// Both ends of every edge have a name.
pub open spec fn ends_named(edges: Seq<InsertableEdge>, names: Map<NodeID, Seq<char>>) -> bool {
    forall|p: int|
        0 <= p < edges.len() ==> names.dom().contains((#[trigger] edges[p]).from.id)
            && names.dom().contains(edges[p].to.id)
}

/// The segment `seg`, built of `edges`, names no node but the ends of the
/// edges.
pub proof fn lemma_built_resolves(
    seg: Segment,
    id: Seq<char>,
    compression: Compression,
    edges: Seq<InsertableEdge>,
    pages: Seq<PageEntry>,
    names: Map<NodeID, Seq<char>>,
)
    requires
        is_built(seg, id, compression, edges, pages),
        ends_named(edges, names),
    ensures
        adjacency_resolves(seg.spec_direction(true), names),
        adjacency_resolves(seg.spec_direction(false), names),
{
    reveal(is_stable_order);
    assert forall|outgoing: bool| adjacency_resolves(#[trigger] seg.spec_direction(outgoing), names) by {
        let adj = seg.spec_direction(outgoing);
        assert forall|node: NodeID| #[trigger] has_node(adj.index(), node) implies names.dom().contains(
            node,
        ) by {
            assert(anchors(edges, node, outgoing));
            let p = choose|p: int|
                0 <= p < edges.len() && anchor(#[trigger] edges[p], outgoing).id == node;
            assert(names.dom().contains(edges[p].from.id));
        }
        assert forall|node: NodeID, j: int| 0 <= j < adj.edges_of(node).len() implies names.dom().contains(
            (#[trigger] adj.edges_of(node)[j]).other.id,
        ) by {
            let list = adj.edges_of(node);
            assert(is_adjacency_of(list, edges, node, outgoing));
            let order = choose|order: Seq<int>|
                #![trigger is_stable_order(order, edges, node, outgoing)]
                is_stable_order(order, edges, node, outgoing) && list.len() == order.len()
                    && forall|t: int|
                    0 <= t < list.len() ==> #[trigger] list[t] == stored(edges[order[t]], outgoing);
            assert(list[j] == stored(edges[order[j]], outgoing));
            assert(0 <= order[j] < edges.len());
            assert(names.dom().contains(edges[order[j]].from.id));
        }
    }
}

impl WebgraphWriter {
    /// The graph as it was committed.
    pub closed spec fn graph(&self) -> Webgraph {
        self.graph
    }

    /// The edges that were taken since the last commit.
    pub closed spec fn pending(&self) -> Seq<InsertableEdge> {
        self.edges@
    }

    /// The pages that were taken since the last commit.
    pub closed spec fn pending_pages(&self) -> Seq<PageEntry> {
        self.pages@
    }

    /// The ranks of the hosts, where the writer was given some.
    pub closed spec fn ranks(&self) -> Option<Map<NodeID, u64>> {
        match self.ranks {
            Some(store) => Some(store@),
            None => None,
        }
    }

    /// How the writer's segments are to be packed when they are written out.
    pub closed spec fn spec_compression(&self) -> Compression {
        self.compression
    }

    /// The graph is well formed, the two indices of each of its segments hold
    /// the same edges, both ends of every waiting edge have a name in the
    /// graph, and the ranks are in order. Without ranks every node carries its
    /// id as the sort key, in the segments and in the edges that wait.
    pub closed spec fn wf(&self) -> bool {
        &&& self.graph.wf()
        &&& all_mirrored(self.graph.segs())
        &&& ends_named(self.edges@, self.graph.names())
        &&& (self.ranks is None ==> all_self_keyed(self.graph.segs()) && edges_self_keyed(
            self.edges@,
        ))
        &&& match self.ranks {
            Some(store) => store.wf(),
            None => true,
        }
    }

    /// What a well-formed writer holds.
    pub proof fn lemma_wf(&self)
        requires
            self.wf(),
        ensures
            self.graph().wf(),
            all_mirrored(self.graph().segs()),
            all_linked(self.graph().segs()),
            ends_named(self.pending(), self.graph().names()),
            self.ranks() is None ==> all_self_keyed(self.graph().segs()) && edges_self_keyed(
                self.pending(),
            ),
    {
        lemma_all_mirrored_linked(self.graph.segs());
    }

    /// A writer into a graph without segments. Nodes get the rank of their
    /// host in `ranks` as their sort key; a node whose host has no rank gets
    /// its own id.
    pub fn new(compression: Compression, ranks: Option<RankStore>) -> (res: WebgraphWriter)
        requires
            ranks matches Some(store) ==> store.wf(),
        ensures
            res.wf(),
            res.graph().segs() == Seq::<Segment>::empty(),
            res.graph().ids() == Seq::<Seq<char>>::empty(),
            res.graph().names() == Map::<NodeID, Seq<char>>::empty(),
            res.pending() == Seq::<InsertableEdge>::empty(),
            res.pending_pages() == Seq::<PageEntry>::empty(),
            res.spec_compression() == compression,
            res.ranks() == match ranks {
                Some(store) => Some(store@),
                None => None,
            },
    {
        WebgraphWriter {
            graph: Webgraph::new(),
            edges: Vec::new(),
            pages: Vec::new(),
            ranks,
            compression,
        }
    }

    /// The sort key of the node `node` whose host has the id `host`.
    fn sort_key(&self, host: &NodeID, node: &NodeID) -> (res: u64)
        requires
            self.wf(),
        ensures
            res == spec_sort_key(self.ranks(), *host, *node),
    {
        match &self.ranks {
            Some(store) => match store.get(host) {
                Some(rank) => rank,
                None => node.0,
            },
            None => node.0,
        }
    }

    /// Takes the edge from `from` to `to`.
    ///
    /// Both nodes get their names in the graph and are noted as pages of
    /// their hosts. The edge, its label cut to `MAX_LABEL_LENGTH` bytes, waits
    /// for the next commit.
    pub fn insert(&mut self, from: Node, to: Node, label: String, rel: RelFlags)
        requires
            old(self).wf(),
        ensures
            final(self).wf(),
            final(self).ranks() == old(self).ranks(),
            final(self).spec_compression() == old(self).spec_compression(),
            final(self).graph().segs() == old(self).graph().segs(),
            final(self).graph().ids() == old(self).graph().ids(),
            final(self).graph().names() == old(self).graph().names().insert(
                from.spec_id(),
                from@,
            ).insert(to.spec_id(), to@),
            final(self).pending().len() == old(self).pending().len() + 1,
            final(self).pending().drop_last() == old(self).pending(),
            final(self).pending().last().from == (NodeDatum {
                sort_key: spec_sort_key(old(self).ranks(), Node::spec_host_id(from@), from.spec_id()),
                id: from.spec_id(),
            }),
            final(self).pending().last().to == (NodeDatum {
                sort_key: spec_sort_key(old(self).ranks(), Node::spec_host_id(to@), to.spec_id()),
                id: to.spec_id(),
            }),
            final(self).pending().last().label@ == spec_cap(label@, MAX_LABEL_LENGTH as nat),
            final(self).pending().last().rel == rel,
            final(self).pending_pages() == old(self).pending_pages().push(
                PageEntry { host: Node::spec_host_id(from@), page: from.spec_id() },
            ).push(PageEntry { host: Node::spec_host_id(to@), page: to.spec_id() }),
    {
        let from_id = from.id();
        let to_id = to.id();
        let from_host = from.clone().into_host().id();
        let to_host = to.clone().into_host().id();
        let from_key = self.sort_key(&from_host, &from_id);
        let to_key = self.sort_key(&to_host, &to_id);
        let label = cap_label(label);
        let ghost before = self.edges@;
        let ghost names = self.graph.names();
        self.graph.id2node.put(from_id, from);
        self.graph.id2node.put(to_id, to);
        self.pages.push(PageEntry { host: from_host, page: from_id });
        self.pages.push(PageEntry { host: to_host, page: to_id });
        self.edges.push(
            InsertableEdge {
                from: NodeDatum::new(from_id, from_key),
                to: NodeDatum::new(to_id, to_key),
                label,
                rel,
            },
        );
        proof {
            let after = self.graph.names();
            assert(self.edges@.drop_last() =~= before);
            assert(named(after));
            assert(resolves(self.graph.segs(), after)) by {
                assert forall|i: int, outgoing: bool|
                    0 <= i < self.graph.segs().len() implies adjacency_resolves(
                    #[trigger] directed(self.graph.segs(), outgoing)[i],
                    after,
                ) by {
                    assert(adjacency_resolves(directed(self.graph.segs(), outgoing)[i], names));
                }
            }
            if self.ranks is None {
                assert(edges_self_keyed(self.edges@)) by {
                    assert forall|p: int| 0 <= p < self.edges@.len() implies (
                    #[trigger] self.edges@[p]).from.sort_key == self.edges@[p].from.id.0
                        && self.edges@[p].to.sort_key == self.edges@[p].to.id.0 by {
                        if p < before.len() {
                            assert(self.edges@[p] == before[p]);
                        }
                    }
                }
            }
            assert(ends_named(self.edges@, after)) by {
                assert forall|p: int| 0 <= p < self.edges@.len() implies after.dom().contains(
                    (#[trigger] self.edges@[p]).from.id,
                ) && after.dom().contains(self.edges@[p].to.id) by {
                    if p < before.len() {
                        assert(self.edges@[p] == before[p]);
                        assert(names.dom().contains(before[p].from.id));
                    }
                }
            }
        }
    }

    /// Commits the edges that wait as a new segment with the id `id`.
    ///
    /// Where no edge waits nothing is changed. It fails, and changes
    /// nothing, where the graph has a segment of that id, and where a node
    /// has more edges than an `EdgeRange` can count.
    pub fn commit_as(&mut self, id: String) -> (res: Result<(), GraphError>)
        requires
            old(self).wf(),
        ensures
            final(self).wf(),
            final(self).ranks() == old(self).ranks(),
            final(self).spec_compression() == old(self).spec_compression(),
            final(self).graph().names() == old(self).graph().names(),
            res matches Err(e) ==> final(self).graph().segs() == old(self).graph().segs()
                && final(self).pending() == old(self).pending() && final(self).pending_pages()
                == old(self).pending_pages(),
            res matches Err(e) ==> e == (if ids_collide(old(self).graph().ids(), seq![id@]) {
                GraphError::DuplicateSegment
            } else {
                GraphError::ListTooLong
            }),
            res is Err <==> old(self).pending().len() > 0 && (ids_collide(
                old(self).graph().ids(),
                seq![id@],
            ) || crowded(old(self).pending())),
            res is Ok && old(self).pending().len() == 0 ==> final(self).graph().segs() == old(self).graph().segs() && final(self).pending() == old(self).pending(),
            res is Ok && old(self).pending().len() > 0 ==> final(self).pending() == Seq::<
                InsertableEdge,
            >::empty() && final(self).pending_pages() == Seq::<PageEntry>::empty() && final(self).graph().segs().len() == old(self).graph().segs().len() + 1 && final(self).graph().segs().drop_last() == old(self).graph().segs() && is_built(
                final(self).graph().segs().last(),
                id@,
                old(self).spec_compression(),
                old(self).pending(),
                old(self).pending_pages(),
            ),
            final(self).graph().ids() == (if res is Ok && old(self).pending().len() > 0 {
                old(self).graph().ids().push(id@)
            } else {
                old(self).graph().ids()
            }),
    {
        if self.edges.len() == 0 {
            return Ok(());
        }
        let n = self.graph.meta.comitted_segments.len();
        let mut i: usize = 0;
        while i < n
            invariant
                i <= n,
                n == self.graph.meta.comitted_segments.len(),
                *self == *old(self),
                self.wf(),
                self.edges@.len() > 0,
                forall|j: int| 0 <= j < i ==> #[trigger] self.graph.ids()[j] != id@,
            decreases n - i,
        {
            if self.graph.meta.comitted_segments[i] == id {
                assert(self.graph.ids()[i as int] == seq![id@][0]);
                return Err(GraphError::DuplicateSegment);
            }
            i += 1;
        }
        let seg = match Segment::build(id.clone(), self.compression, &self.edges, &self.pages) {
            Ok(seg) => seg,
            Err(_) => {
                return Err(GraphError::ListTooLong);
            },
        };
        let ghost before = self.graph.segs();
        let ghost ids = self.graph.ids();
        let ghost names = self.graph.names();
        proof {
            lemma_built_resolves(
                seg,
                id@,
                self.compression,
                self.edges@,
                self.pages@,
                names,
            );
            assert(!crowded(self.edges@)) by {
                lemma_not_crowded(seg, id@, self.compression, self.edges@, self.pages@);
            }
            law_built_is_mirrored(seg, id@, self.compression, self.edges@, self.pages@);
            if self.ranks is None {
                lemma_built_self_keyed(seg, id@, self.compression, self.edges@, self.pages@);
            }
        }
        let ghost fresh = seg;
        self.graph.segments.push(seg);
        self.graph.meta.comitted_segments.push(id);
        self.edges = Vec::new();
        self.pages = Vec::new();
        proof {
            let all = self.graph.segs();
            assert(all.drop_last() =~= before);
            assert(self.graph.ids() =~= ids.push(id@));
            assert(self.graph.ids() =~= segment_ids(all));
            assert(distinct(self.graph.ids())) by {
                assert forall|a: int, b: int| 0 <= a < b < self.graph.ids().len() implies #[trigger] self.graph.ids()[a]
                    != #[trigger] self.graph.ids()[b] by {
                    if b < ids.len() {
                        assert(ids[a] != ids[b]);
                    } else {
                        assert(ids[a] != id@);
                    }
                }
            }
            assert(segments_wf(all)) by {
                assert forall|j: int| 0 <= j < all.len() implies (#[trigger] all[j]).wf() by {
                    if j < before.len() {
                        assert(all[j] == before[j]);
                    }
                }
            }
            assert(all_mirrored(all)) by {
                assert forall|j: int| 0 <= j < all.len() implies mirrored(#[trigger] all[j]) by {
                    if j < before.len() {
                        assert(all[j] == before[j]);
                    }
                }
            }
            if self.ranks is None {
                assert(all =~= before + seq![fresh]);
                assert(all_self_keyed(seq![fresh])) by {
                    assert forall|j: int, node: NodeID, outgoing: bool|
                        0 <= j < seq![fresh].len() implies self_keyed(
                        #[trigger] seq![fresh][j].spec_direction(outgoing).edges_of(node),
                    ) by {
                        assert(self_keyed(fresh.spec_direction(outgoing).edges_of(node)));
                    }
                }
                lemma_union_self_keyed(before, seq![fresh]);
                assert(edges_self_keyed(self.edges@));
            }
            assert(resolves(all, names)) by {
                assert forall|j: int, outgoing: bool| 0 <= j < all.len() implies adjacency_resolves(
                    #[trigger] directed(all, outgoing)[j],
                    names,
                ) by {
                    if j < before.len() {
                        assert(all[j] == before[j]);
                        assert(adjacency_resolves(directed(before, outgoing)[j], names));
                    } else {
                        assert(directed(all, outgoing)[j] == seg.spec_direction(outgoing));
                    }
                }
            }
            assert(!ids_collide(ids, seq![id@])) by {
                if ids_collide(ids, seq![id@]) {
                    let (a, b) = choose|a: int, b: int|
                        0 <= a < ids.len() && 0 <= b < seq![id@].len() && #[trigger] ids[a]
                            == #[trigger] seq![id@][b];
                    assert(ids[a] != id@);
                }
            }
        }
        Ok(())
    }

    /// Commits the edges that wait as a new segment with a fresh id.
    ///
    /// Where no edge waits nothing is changed. It fails, and changes
    /// nothing, where a node has more edges than an `EdgeRange` can count,
    /// and where the fresh id is the id of a segment of the graph: on a graph
    /// without segments it succeeds unless a node has too many edges.
    pub fn commit(&mut self) -> (res: Result<(), GraphError>)
        requires
            old(self).wf(),
        ensures
            final(self).wf(),
            final(self).ranks() == old(self).ranks(),
            final(self).spec_compression() == old(self).spec_compression(),
            final(self).graph().names() == old(self).graph().names(),
            res matches Err(e) ==> final(self).graph().segs() == old(self).graph().segs()
                && final(self).pending() == old(self).pending() && final(self).pending_pages()
                == old(self).pending_pages(),
            res is Err ==> old(self).pending().len() > 0,
            old(self).pending().len() > 0 && crowded(old(self).pending()) ==> res is Err,
            res is Err && !crowded(old(self).pending()) ==> old(self).graph().ids().len() > 0,
            old(self).graph().ids().len() == 0 && old(self).pending().len() <= u32::MAX ==> res is Ok,
            res matches Err(e) ==> (e == GraphError::DuplicateSegment && old(self).graph().ids().len()
                > 0) || (e == GraphError::ListTooLong && crowded(old(self).pending())),
            res is Err ==> final(self).graph().ids() == old(self).graph().ids(),
            res is Ok && old(self).pending().len() == 0 ==> final(self).graph().ids() == old(self).graph().ids(),
            res is Ok && old(self).pending().len() > 0 ==> final(self).graph().ids() == old(self).graph().ids().push(
                final(self).graph().segs().last().spec_id(),
            ),
            res is Ok && old(self).pending().len() == 0 ==> final(self).graph().segs() == old(self).graph().segs() && final(self).pending() == old(self).pending(),
            res is Ok && old(self).pending().len() > 0 ==> final(self).pending() == Seq::<
                InsertableEdge,
            >::empty() && final(self).pending_pages() == Seq::<PageEntry>::empty() && final(self).graph().segs().len() == old(self).graph().segs().len() + 1 && final(self).graph().segs().drop_last() == old(self).graph().segs() && is_built(
                final(self).graph().segs().last(),
                final(self).graph().segs().last().spec_id(),
                old(self).spec_compression(),
                old(self).pending(),
                old(self).pending_pages(),
            ),
    {
        let id = fresh_segment_id();
        let ghost ids = self.graph().ids();
        let res = self.commit_as(id);
        proof {
            if old(self).pending().len() <= u32::MAX {
                law_few_edges_fit(old(self).pending());
            }
            if ids_collide(ids, seq![id@]) {
                let (a, b) = choose|a: int, b: int|
                    0 <= a < ids.len() && 0 <= b < seq![id@].len() && #[trigger] ids[a]
                        == #[trigger] seq![id@][b];
                assert(ids.len() > 0);
            }
            if res is Ok && old(self).pending().len() > 0 {
                assert(final(self).graph().segs().last().spec_id() == id@);
            }
        }
        res
    }

    /// Commits the edges that wait and hands the graph over. It fails where
    /// `commit` fails.
    pub fn finalize(self) -> (res: Result<Webgraph, GraphError>)
        requires
            self.wf(),
        ensures
            res is Err ==> self.pending().len() > 0,
            self.pending().len() > 0 && crowded(self.pending()) ==> res is Err,
            res is Err && !crowded(self.pending()) ==> self.graph().ids().len() > 0,
            self.graph().ids().len() == 0 && self.pending().len() <= u32::MAX ==> res is Ok,
            res matches Err(e) ==> (e == GraphError::DuplicateSegment && self.graph().ids().len() > 0)
                || (e == GraphError::ListTooLong && crowded(self.pending())),
            res matches Ok(graph) ==> (self.ranks() is None ==> all_self_keyed(graph.segs())),
            res matches Ok(graph) ==> graph.wf() && all_mirrored(graph.segs()) && all_linked(
                graph.segs(),
            ) && graph.names() == self.graph().names() && (
            self.pending().len() == 0 ==> graph.segs() == self.graph().segs()) && (
            self.pending().len() > 0 ==> graph.segs().len() == self.graph().segs().len() + 1
                && graph.segs().drop_last() == self.graph().segs() && is_built(
                graph.segs().last(),
                graph.segs().last().spec_id(),
                self.spec_compression(),
                self.pending(),
                self.pending_pages(),
            )),
    {
        let mut writer = self;
        match writer.commit() {
            Ok(()) => {
                proof {
                    lemma_all_mirrored_linked(writer.graph.segs());
                }
                Ok(writer.graph)
            },
            Err(e) => Err(e),
        }
    }
}

/// Edges of which a segment was built are not crowded.
pub proof fn lemma_not_crowded(
    seg: Segment,
    id: Seq<char>,
    compression: Compression,
    edges: Seq<InsertableEdge>,
    pages: Seq<PageEntry>,
)
    requires
        is_built(seg, id, compression, edges, pages),
    ensures
        !crowded(edges),
{
    if crowded(edges) {
        let (node, outgoing, order) = choose|node: NodeID, outgoing: bool, order: Seq<int>|
            #[trigger] is_stable_order(order, edges, node, outgoing) && order.len() > u32::MAX;
        let adj = seg.spec_direction(outgoing);
        let list = adj.edges_of(node);
        assert(is_adjacency_of(list, edges, node, outgoing));
        let mine = choose|mine: Seq<int>|
            #![trigger is_stable_order(mine, edges, node, outgoing)]
            is_stable_order(mine, edges, node, outgoing) && list.len() == mine.len() && forall|
                t: int,
            |
                0 <= t < list.len() ==> #[trigger] list[t] == stored(edges[mine[t]], outgoing);
        crate::builder::lemma_stable_order_len(order, mine, edges, node, outgoing);
        seg.lemma_wf();
        adj.lemma_len(node);
    }
}

} // verus!
