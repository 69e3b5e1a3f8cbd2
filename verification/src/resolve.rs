//! Queries that resolve node ids to nodes, and the walks over all edges, all
//! pages of a host, and a random sample of nodes.

use crate::compact::{directed, lists_of};
use crate::edge::{spec_edges, Edge, EdgeLimit, PageEntry, StoredEdge};
use crate::graph::{adjacency_resolves, gathered, FullEdge, Webgraph};
use crate::node::{Node, NodeID};
use crate::outside::{
    first_occurrences, lemma_first_occurrences, sample, shuffle, thread_rng, unique,
};
use crate::query::{concat, concat_upto, lemma_concat_item, lemma_selection};
use crate::segment::{has_node, lemma_pages_of, Segment};
use crate::sort::sorted_distinct;
use vstd::prelude::*;

verus! {

broadcast use vstd::seq_lib::group_to_multiset_ensures;

/// `e` is the stored edge `stored` at a node with the name `node_name`, its
/// neighbour resolved to the name `other_name`.
pub open spec fn is_full_edge(
    e: FullEdge,
    node_name: Seq<char>,
    other_name: Seq<char>,
    stored: StoredEdge<String>,
    outgoing: bool,
) -> bool {
    &&& e.label == stored.label
    &&& if outgoing {
        e.from@ == node_name && e.to@ == other_name
    } else {
        e.from@ == other_name && e.to@ == node_name
    }
}

/// Some segment holds `page` as a page of `host`.
pub open spec fn has_page(segments: Seq<Segment>, host: NodeID, page: NodeID) -> bool {
    exists|i: int, j: int|
        0 <= i < segments.len() && 0 <= j < segments[i].spec_pages().len()
            && #[trigger] segments[i].spec_pages()[j] == (PageEntry { host, page })
}

/// The edges of all segments, segment after segment.
pub open spec fn all_edges(segments: Seq<Segment>) -> Seq<Edge<()>> {
    concat(Seq::new(segments.len(), |i: int| segments[i].spec_forward().spec_scan()))
}

/// The ids of the nodes that the edges leave.
pub open spec fn sources(edges: Seq<Edge<()>>) -> Seq<u64> {
    Seq::new(edges.len(), |t: int| edges[t].from.0)
}

impl Webgraph {
    /// Every node that a query names has a name: the neighbours of the edges
    /// it answers with, and the node it was asked for if it answers with any.
    pub proof fn lemma_adjacent_resolves(&self, node: NodeID, outgoing: bool)
        requires
            self.wf(),
        ensures
            forall|t: int|
                0 <= t < self.spec_adjacent(node, outgoing).len() ==> self.names().dom().contains(
                    (#[trigger] self.spec_adjacent(node, outgoing)[t]).other.id,
                ),
            self.spec_adjacent(node, outgoing).len() > 0 ==> self.names().dom().contains(node),
    {
        let g = gathered(self.segs(), node, outgoing);
        let sel = self.spec_adjacent(node, outgoing);
        let lists = lists_of(directed(self.segs(), outgoing), node);
        lemma_selection(g);
        assert forall|t: int| 0 <= t < sel.len() implies self.names().dom().contains(
            (#[trigger] sel[t]).other.id,
        ) && self.names().dom().contains(node) by {
            assert(g.contains(sel[t]));
            let p = choose|p: int| 0 <= p < g.len() && g[p] == sel[t];
            let at = lemma_concat_item(lists, lists.len(), p);
            let adj = directed(self.segs(), outgoing)[at.0];
            assert(adjacency_resolves(adj, self.names()));
            assert(lists[at.0] == adj.edges_of(node));
            assert(self.names().dom().contains(adj.edges_of(node)[at.1].other.id));
            self.segs()[at.0].lemma_wf();
            adj.lemma_index();
            assert(has_node(adj.index(), node));
        }
        if sel.len() > 0 {
            assert(self.names().dom().contains(sel[0].other.id));
        }
    }

    /// The edges at `node` in one direction, with the nodes at both ends.
    fn full_edges(&self, node: Node, limit: EdgeLimit, outgoing: bool) -> (res: Vec<FullEdge>)
        requires
            self.wf(),
        ensures
            res.len() == limit.spec_apply(self.spec_adjacent(node.spec_id(), outgoing)).len(),
            forall|t: int|
                0 <= t < res.len() ==> is_full_edge(
                    #[trigger] res[t],
                    self.names()[node.spec_id()],
                    self.names()[limit.spec_apply(
                        self.spec_adjacent(node.spec_id(), outgoing),
                    )[t].other.id],
                    limit.spec_apply(self.spec_adjacent(node.spec_id(), outgoing))[t],
                    outgoing,
                ),
    {
        let id = node.id();
        let ghost list = limit.spec_apply(self.spec_adjacent(id, outgoing));
        proof {
            self.lemma_adjacent_resolves(id, outgoing);
        }
        let edges = self.adjacent_with_labels(&id, limit, outgoing);
        let mut edges = edges;
        let ghost all = edges@;
        let mut back: Vec<FullEdge> = Vec::new();
        while edges.len() > 0
            invariant
                self.wf(),
                all == spec_edges(id, list, outgoing),
                list == limit.spec_apply(self.spec_adjacent(id, outgoing)),
                forall|t: int|
                    0 <= t < self.spec_adjacent(id, outgoing).len() ==> self.names().dom().contains(
                        (#[trigger] self.spec_adjacent(id, outgoing)[t]).other.id,
                    ),
                self.spec_adjacent(id, outgoing).len() > 0 ==> self.names().dom().contains(id),
                edges.len() + back.len() == all.len(),
                edges@ == all.take(edges.len() as int),
                forall|i: int|
                    0 <= i < back.len() ==> is_full_edge(
                        #[trigger] back[i],
                        self.names()[id],
                        self.names()[list[list.len() - 1 - i].other.id],
                        list[list.len() - 1 - i],
                        outgoing,
                    ),
            decreases edges.len(),
        {
            let e = edges.pop().unwrap();
            let ghost t = edges.len() as int;
            proof {
                assert(e == all[t]);
                assert(list[t] == self.spec_adjacent(id, outgoing)[t]);
                assert(self.names().dom().contains(list[t].other.id));
            }
            let from = self.id2node.get(&e.from).unwrap();
            let to = self.id2node.get(&e.to).unwrap();
            back.push(FullEdge { from, to, label: e.label });
        }
        let mut res: Vec<FullEdge> = Vec::new();
        while back.len() > 0
            invariant
                res.len() + back.len() == list.len(),
                forall|i: int|
                    0 <= i < back.len() ==> is_full_edge(
                        #[trigger] back[i],
                        self.names()[id],
                        self.names()[list[list.len() - 1 - i].other.id],
                        list[list.len() - 1 - i],
                        outgoing,
                    ),
                forall|t: int|
                    0 <= t < res.len() ==> is_full_edge(
                        #[trigger] res[t],
                        self.names()[id],
                        self.names()[list[t].other.id],
                        list[t],
                        outgoing,
                    ),
            decreases back.len(),
        {
            let e = back.pop().unwrap();
            res.push(e);
        }
        res
    }

    /// The edges that leave `node`, with the nodes at both ends: one edge per
    /// node reached, by the reached nodes' `(sort_key, id)`, and of these the
    /// first that `limit` lets through.
    pub fn outgoing_edges(&self, node: Node, limit: EdgeLimit) -> (res: Vec<FullEdge>)
        requires
            self.wf(),
        ensures
            res.len() == limit.spec_apply(self.spec_adjacent(node.spec_id(), true)).len(),
            forall|t: int|
                0 <= t < res.len() ==> is_full_edge(
                    #[trigger] res[t],
                    self.names()[node.spec_id()],
                    self.names()[limit.spec_apply(self.spec_adjacent(node.spec_id(), true))[t].other.id],
                    limit.spec_apply(self.spec_adjacent(node.spec_id(), true))[t],
                    true,
                ),
    {
        self.full_edges(node, limit, true)
    }

    /// The edges that reach `node`, with the nodes at both ends: one edge per
    /// node they leave, by those nodes' `(sort_key, id)`, and of these the
    /// first that `limit` lets through.
    pub fn ingoing_edges(&self, node: Node, limit: EdgeLimit) -> (res: Vec<FullEdge>)
        requires
            self.wf(),
        ensures
            res.len() == limit.spec_apply(self.spec_adjacent(node.spec_id(), false)).len(),
            forall|t: int|
                0 <= t < res.len() ==> is_full_edge(
                    #[trigger] res[t],
                    self.names()[node.spec_id()],
                    self.names()[limit.spec_apply(self.spec_adjacent(node.spec_id(), false))[t].other.id],
                    limit.spec_apply(self.spec_adjacent(node.spec_id(), false))[t],
                    false,
                ),
    {
        self.full_edges(node, limit, false)
    }

    /// Every edge of every segment, segment after segment. An edge that
    /// several segments hold occurs once for each.
    pub fn edges(&self) -> (res: Vec<Edge<()>>)
        requires
            self.wf(),
        ensures
            res@ == all_edges(self.segs()),
    {
        let k = self.segments.len();
        let ghost scans = Seq::new(self.segs().len(), |i: int| self.segs()[i].spec_forward().spec_scan());
        let mut res: Vec<Edge<()>> = Vec::new();
        let mut i: usize = 0;
        while i < k
            invariant
                i <= k,
                k == self.segments.len(),
                self.wf(),
                scans == Seq::new(
                    self.segs().len(),
                    |i: int| self.segs()[i].spec_forward().spec_scan(),
                ),
                res@ == concat_upto(scans, i as nat),
            decreases k - i,
        {
            let mut part = self.segments[i].edges();
            assert(part@ == scans[i as int]);
            res.append(&mut part);
            i += 1;
        }
        res
    }

    /// The pages of the host `host_node` in all segments, in rising order,
    /// each once.
    pub fn pages_by_host(&self, host_node: &NodeID) -> (res: Vec<NodeID>)
        requires
            self.wf(),
        ensures
            forall|a: int, b: int| 0 <= a < b < res.len() ==> (#[trigger] res[a]).0 < (#[trigger] res[b]).0,
            forall|page: NodeID| res@.contains(page) <==> has_page(self.segs(), *host_node, page),
    {
        let k = self.segments.len();
        let mut found: Vec<u64> = Vec::new();
        let mut i: usize = 0;
        while i < k
            invariant
                i <= k,
                k == self.segments.len(),
                forall|x: u64|
                    found@.contains(x) <==> has_page(
                        self.segs().take(i as int),
                        *host_node,
                        NodeID(x),
                    ),
            decreases k - i,
        {
            let pages = self.segments[i].pages_by_host(host_node);
            let ghost before = found@;
            let n = pages.len();
            let mut j: usize = 0;
            while j < n
                invariant
                    j <= n,
                    n == pages.len(),
                    found@ == before + Seq::new(j as nat, |t: int| pages@[t].0),
                decreases n - j,
            {
                found.push(pages[j].0);
                assert(found@ =~= before + Seq::new((j + 1) as nat, |t: int| pages@[t].0));
                j += 1;
            }
            proof {
                let seg = self.segs()[i as int];
                let shorter = self.segs().take(i as int);
                let longer = self.segs().take(i + 1);
                let added = Seq::new(n as nat, |t: int| pages@[t].0);
                lemma_pages_of(seg.spec_pages(), *host_node, seg.spec_pages().len());
                assert forall|x: u64|
                    found@.contains(x) <==> has_page(longer, *host_node, NodeID(x)) by {
                    let entry = PageEntry { host: *host_node, page: NodeID(x) };
                    if found@.contains(x) {
                        let t = choose|t: int| 0 <= t < found@.len() && found@[t] == x;
                        if t < before.len() {
                            assert(before[t] == x);
                            assert(before.contains(x));
                            let (a, b) = choose|a: int, b: int|
                                0 <= a < shorter.len() && 0 <= b < shorter[a].spec_pages().len()
                                    && #[trigger] shorter[a].spec_pages()[b] == entry;
                            assert(longer[a].spec_pages()[b] == entry);
                        } else {
                            assert(pages@[t - before.len()] == NodeID(x));
                            assert(pages@.contains(NodeID(x)));
                            let b = choose|b: int|
                                0 <= b < seg.spec_pages().len() && #[trigger] seg.spec_pages()[b]
                                    == entry;
                            assert(longer[i as int].spec_pages()[b] == entry);
                        }
                    }
                    if has_page(longer, *host_node, NodeID(x)) {
                        let (a, b) = choose|a: int, b: int|
                            0 <= a < longer.len() && 0 <= b < longer[a].spec_pages().len()
                                && #[trigger] longer[a].spec_pages()[b] == entry;
                        if a < i {
                            assert(shorter[a].spec_pages()[b] == entry);
                            assert(before.contains(x));
                            let t = choose|t: int| 0 <= t < before.len() && before[t] == x;
                            assert(found@[t] == x);
                        } else {
                            assert(seg.spec_pages()[b] == entry);
                            assert(pages@.contains(NodeID(x)));
                            let t = choose|t: int| 0 <= t < pages@.len() && pages@[t] == NodeID(x);
                            assert(found@[before.len() + t] == x);
                        }
                    }
                }
            }
            i += 1;
        }
        assert(self.segs().take(k as int) =~= self.segs());
        let ids = sorted_distinct(&found);
        let m = ids.len();
        let mut res: Vec<NodeID> = Vec::new();
        let mut t: usize = 0;
        while t < m
            invariant
                t <= m,
                m == ids.len(),
                res.len() == t,
                forall|u: int| 0 <= u < t ==> #[trigger] res[u] == NodeID(ids[u]),
            decreases m - t,
        {
            res.push(NodeID(ids[t]));
            t += 1;
        }
        proof {
            assert forall|page: NodeID|
                res@.contains(page) <==> has_page(self.segs(), *host_node, page) by {
                if res@.contains(page) {
                    let u = choose|u: int| 0 <= u < res@.len() && res@[u] == page;
                    assert(ids@[u] == page.0);
                    assert(ids@.contains(page.0));
                    assert(found@.contains(page.0));
                }
                if has_page(self.segs(), *host_node, page) {
                    assert(found@.contains(page.0));
                    assert(ids@.contains(page.0));
                    let u = choose|u: int| 0 <= u < ids@.len() && ids@[u] == page.0;
                    assert(res@[u] == page);
                }
            }
        }
        res
    }

    /// The nodes that some edge leaves, each once, in the order in which the
    /// edges first name them.
    pub open spec fn spec_sources(&self) -> Seq<u64> {
        first_occurrences(sources(all_edges(self.segs())))
    }

    /// A random sample of the nodes that some edge leaves: `num` of them, or
    /// all if there are fewer, no node twice, in random order.
    pub fn random_nodes_with_outgoing(&self, num: usize) -> (res: Vec<NodeID>)
        requires
            self.wf(),
        ensures
            res.len() == if num < self.spec_sources().len() {
                num as nat
            } else {
                self.spec_sources().len()
            },
            res@.no_duplicates(),
            forall|t: int| 0 <= t < res.len() ==> self.spec_sources().contains((#[trigger] res[t]).0),
    {
        let edges = self.edges();
        let n = edges.len();
        let mut from: Vec<u64> = Vec::new();
        let mut t: usize = 0;
        while t < n
            invariant
                t <= n,
                n == edges.len(),
                from@ == sources(edges@).take(t as int),
            decreases n - t,
        {
            from.push(edges[t].from.0);
            assert(from@ =~= sources(edges@).take(t + 1));
            t += 1;
        }
        assert(from@ =~= sources(edges@));
        let distinct = unique(from);
        let amount = if num < distinct.len() {
            num
        } else {
            distinct.len()
        };
        let ghost pool = distinct@;
        let mut rng = thread_rng();
        let mut picked = sample(distinct, amount, &mut rng);
        shuffle(&mut picked, &mut rng);
        proof {
            lemma_first_occurrences(sources(edges@));
            pool.lemma_multiset_has_no_duplicates();
            assert forall|x: u64| picked@.to_multiset().count(x) <= 1 by {
                assert(picked@.to_multiset().count(x) <= pool.to_multiset().count(x));
            }
            picked@.lemma_multiset_has_no_duplicates_conv();
            assert forall|u: int| 0 <= u < picked.len() implies pool.contains(#[trigger] picked@[u]) by {
                assert(picked@.contains(picked@[u]));
                assert(picked@.to_multiset().count(picked@[u]) > 0);
                assert(pool.to_multiset().count(picked@[u]) > 0);
            }
            assert(picked@.len() == amount) by {
                assert(picked@.to_multiset().len() == picked@.len());
            }
        }
        let m = picked.len();
        let mut res: Vec<NodeID> = Vec::new();
        let mut u: usize = 0;
        while u < m
            invariant
                u <= m,
                m == picked.len(),
                res.len() == u,
                forall|v: int| 0 <= v < u ==> #[trigger] res[v] == NodeID(picked[v]),
            decreases m - u,
        {
            res.push(NodeID(picked[u]));
            u += 1;
        }
        proof {
            assert forall|a: int, b: int| 0 <= a < res.len() && 0 <= b < res.len() && a
                != b implies res@[a] != res@[b] by {
                assert(picked@[a] != picked@[b]);
            }
        }
        res
    }
}

} // verus!
