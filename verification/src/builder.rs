//! Building a segment from the edges that a writer has collected.

use crate::edge::{NodeDatum, PageEntry, RelFlags, StoredEdge};
use crate::fuse::{
    first_in,
    first_over,
    fuse_all,
    lemma_first_in,
    lemma_first_in_at,
    lemma_first_over,
    lemma_fuse_sorted,
    sorted,
    strictly_sorted,
};
use crate::heap::SortKey;
use crate::kway::{key_le, key_lt, vec_views, MergeKey};
use crate::merge::MergeNode;
use crate::node::NodeID;
use crate::segment::{
    csr_edges_of,
    csr_wf,
    entry_list,
    entry_ok,
    has_node,
    lemma_csr_edges_at,
    Adjacency,
    Compression,
    EdgeRange,
    Segment,
    StoreError,
};
use crate::sort::{keys_rising, sort_keys};
use vstd::prelude::*;

verus! {

/// An edge as a writer takes it: the data of both nodes, the label and the
/// flags.
#[derive(Debug)]
pub struct InsertableEdge {
    pub from: NodeDatum,
    pub to: NodeDatum,
    pub label: String,
    pub rel: RelFlags,
}

/// The node whose adjacency list holds `e` in the given direction.
pub open spec fn anchor(e: InsertableEdge, outgoing: bool) -> NodeDatum {
    if outgoing {
        e.from
    } else {
        e.to
    }
}

/// The node at the other end of `e`.
pub open spec fn neighbour(e: InsertableEdge, outgoing: bool) -> NodeDatum {
    if outgoing {
        e.to
    } else {
        e.from
    }
}

/// `e` as the adjacency list of its anchor holds it.
pub open spec fn stored(e: InsertableEdge, outgoing: bool) -> StoredEdge<String> {
    StoredEdge { other: neighbour(e, outgoing), label: e.label, rel: e.rel }
}

/// The key by which the edge at `p` is sorted into a segment: its anchor,
/// then its neighbour's datum, then its position.
pub open spec fn edge_key(edges: Seq<InsertableEdge>, p: int, outgoing: bool) -> SortKey {
    SortKey {
        k0: anchor(edges[p], outgoing).id.0,
        k1: neighbour(edges[p], outgoing).sort_key,
        k2: neighbour(edges[p], outgoing).id.0,
        slot: p as usize,
    }
}

/// `order` lists the positions of the edges that `node` anchors, all of them,
/// by the datum of the neighbour; edges to one neighbour datum stay in the
/// order in which they were given.
#[verifier::opaque]
pub open spec fn is_stable_order(
    order: Seq<int>,
    edges: Seq<InsertableEdge>,
    node: NodeID,
    outgoing: bool,
) -> bool {
    &&& forall|t: int|
        0 <= t < order.len() ==> 0 <= (#[trigger] order[t]) < edges.len() && anchor(
            edges[order[t]],
            outgoing,
        ).id == node
    &&& forall|a: int, b: int|
        0 <= a < b < order.len() ==> edge_key(edges, #[trigger] order[a], outgoing).spec_lt(
            edge_key(edges, #[trigger] order[b], outgoing),
        )
    &&& forall|p: int|
        0 <= p < edges.len() && anchor(#[trigger] edges[p], outgoing).id == node ==> order.contains(p)
}

/// `list` is the adjacency list of `node` for the edges `edges`: the edges
/// that `node` anchors, sorted by the datum of the neighbour, edges to one
/// neighbour datum in the order in which they were given.
pub open spec fn is_adjacency_of(
    list: Seq<StoredEdge<String>>,
    edges: Seq<InsertableEdge>,
    node: NodeID,
    outgoing: bool,
) -> bool {
    exists|order: Seq<int>|
        #![trigger is_stable_order(order, edges, node, outgoing)]
        is_stable_order(order, edges, node, outgoing) && list.len() == order.len() && forall|
            t: int,
        |
            0 <= t < list.len() ==> #[trigger] list[t] == stored(edges[order[t]], outgoing)
}

/// Some edge is anchored at `node`.
pub open spec fn anchors(edges: Seq<InsertableEdge>, node: NodeID, outgoing: bool) -> bool {
    exists|p: int| 0 <= p < edges.len() && anchor(#[trigger] edges[p], outgoing).id == node
}

/// The groups `nodes` tile the first `a` sorted keys: each group is a run of
/// keys of one node, the runs follow each other without a gap, and the nodes
/// rise.
#[verifier::opaque]
pub open spec fn tiled(nodes: Seq<MergeNode>, keys: Seq<SortKey>, a: int) -> bool {
    &&& 0 <= a <= keys.len()
    &&& nodes.len() == 0 ==> a == 0
    &&& nodes.len() > 0 ==> nodes[0].range.start == 0 && nodes.last().range.end == a
    &&& forall|t: int| 0 <= t < nodes.len() ==> entry_ok(#[trigger] nodes[t], a as nat) && nodes[t].range.start < nodes[t].range.end
    &&& forall|t: int|
        0 <= t < nodes.len() - 1 ==> (#[trigger] nodes[t]).range.end == nodes[t + 1].range.start
            && nodes[t].node.0 < nodes[t + 1].node.0
    &&& forall|t: int, i: int|
        0 <= t < nodes.len() && nodes[t].range.start <= i < nodes[t].range.end ==> (
        #[trigger] keys[i]).k0 == (#[trigger] nodes[t]).node.0
}

proof fn lemma_tiled_rising(nodes: Seq<MergeNode>, keys: Seq<SortKey>, a: int, s: int, t: int)
    requires
        tiled(nodes, keys, a),
        0 <= s < t < nodes.len(),
    ensures
        nodes[s].node.0 < nodes[t].node.0,
        nodes[s].range.end <= nodes[t].range.start,
    decreases t - s,
{
    reveal(tiled);
    if s + 1 < t {
        lemma_tiled_rising(nodes, keys, a, s + 1, t);
    }
}

/// The group that holds the sorted key at `i`.
proof fn lemma_tile_of(nodes: Seq<MergeNode>, keys: Seq<SortKey>, a: int, i: int) -> (t: int)
    requires
        tiled(nodes, keys, a),
        0 <= i < a,
    ensures
        0 <= t < nodes.len(),
        nodes[t].range.start <= i < nodes[t].range.end,
{
    reveal(tiled);
    lemma_tile_from(nodes, keys, a, i, nodes.len() - 1)
}

proof fn lemma_tile_from(nodes: Seq<MergeNode>, keys: Seq<SortKey>, a: int, i: int, last: int) -> (t:
    int)
    requires
        tiled(nodes, keys, a),
        0 <= last < nodes.len(),
        0 <= i < nodes[last].range.end,
    ensures
        0 <= t <= last,
        nodes[t].range.start <= i < nodes[t].range.end,
    decreases last,
{
    reveal(tiled);
    if nodes[last].range.start <= i {
        last
    } else {
        assert(last > 0);
        assert(nodes[last - 1].range.end == nodes[last].range.start);
        lemma_tile_from(nodes, keys, a, i, last - 1)
    }
}

/// What the tiling of all sorted keys means for the adjacency that was built.
proof fn lemma_built(
    nodes: Seq<MergeNode>,
    out: Seq<StoredEdge<String>>,
    keys: Seq<SortKey>,
    edges: Seq<InsertableEdge>,
    outgoing: bool,
)
    requires
        tiled(nodes, keys, keys.len() as int),
        keys_rising(keys),
        out.len() == keys.len(),
        keyed(keys, edges, outgoing),
        forall|i: int| 0 <= i < out.len() ==> #[trigger] out[i] == stored(edges[keys[i].slot as int], outgoing),
    ensures
        csr_wf(nodes, out),
        forall|node: NodeID|
            is_adjacency_of(#[trigger] csr_edges_of(nodes, out, node), edges, node, outgoing),
        forall|node: NodeID| #[trigger] has_node(nodes, node) == anchors(edges, node, outgoing),
{
    reveal(is_stable_order);
    reveal(tiled);
    reveal(keyed);
    let n = keys.len() as int;
    assert(strictly_sorted(nodes)) by {
        assert forall|s: int, t: int| 0 <= s < t < nodes.len() implies key_lt(
            (#[trigger] nodes[s]).spec_key(),
            (#[trigger] nodes[t]).spec_key(),
        ) by {
            lemma_tiled_rising(nodes, keys, n, s, t);
        }
    }
    assert forall|t: int| 0 <= t < nodes.len() implies entry_ok(#[trigger] nodes[t], out.len())
        && sorted(entry_list(nodes[t], out)) by {
        let list = entry_list(nodes[t], out);
        let start = nodes[t].range.start as int;
        assert forall|a: int, b: int| 0 <= a < b < list.len() implies key_le(
            (#[trigger] list[a]).spec_key(),
            (#[trigger] list[b]).spec_key(),
        ) by {
            assert(keys[start + a].spec_lt(keys[start + b]));
            assert(keys[start + a].k0 == nodes[t].node.0);
            assert(keys[start + b].k0 == nodes[t].node.0);
            assert(list[a] == out[start + a]);
            assert(list[b] == out[start + b]);
        }
    }
    assert forall|node: NodeID|
        is_adjacency_of(#[trigger] csr_edges_of(nodes, out, node), edges, node, outgoing) && (
        has_node(nodes, node) == anchors(edges, node, outgoing)) by {
        let list = csr_edges_of(nodes, out, node);
        if has_node(nodes, node) {
            let t = choose|t: int| 0 <= t < nodes.len() && (#[trigger] nodes[t]).node == node;
            lemma_csr_edges_at(nodes, out, t);
            let start = nodes[t].range.start as int;
            let end = nodes[t].range.end as int;
            let order = Seq::new((end - start) as nat, |j: int| keys[start + j].slot as int);
            assert forall|j: int| 0 <= j < order.len() implies 0 <= (#[trigger] order[j])
                < edges.len() && anchor(edges[order[j]], outgoing).id == node by {
                assert(keys[start + j].k0 == nodes[t].node.0);
            }
            assert forall|a: int, b: int| 0 <= a < b < order.len() implies edge_key(
                edges,
                #[trigger] order[a],
                outgoing,
            ).spec_lt(edge_key(edges, #[trigger] order[b], outgoing)) by {
                assert(keys[start + a].spec_lt(keys[start + b]));
            }
            assert forall|p: int|
                0 <= p < edges.len() && anchor(
                    #[trigger] edges[p],
                    outgoing,
                ).id == node implies order.contains(p) by {
                let k = edge_key(edges, p, outgoing);
                assert(keys.contains(k));
                let i = choose|i: int| 0 <= i < keys.len() && keys[i] == k;
                let u = lemma_tile_of(nodes, keys, n, i);
                assert(keys[i].k0 == nodes[u].node.0);
                if u < t {
                    lemma_tiled_rising(nodes, keys, n, u, t);
                }
                if t < u {
                    lemma_tiled_rising(nodes, keys, n, t, u);
                }
                assert(u == t);
                assert(keys[i].slot == p);
                assert(order[i - start] == p);
            }
            assert(is_stable_order(order, edges, node, outgoing));
            assert forall|j: int| 0 <= j < list.len() implies #[trigger] list[j] == stored(
                edges[order[j]],
                outgoing,
            ) by {
                assert(list[j] == out[start + j]);
            }
            assert(anchors(edges, node, outgoing)) by {
                assert(order.len() > 0);
                assert(anchor(edges[order[0]], outgoing).id == node);
            }
        } else {
            let order = Seq::<int>::empty();
            assert forall|p: int| 0 <= p < edges.len() implies anchor(
                #[trigger] edges[p],
                outgoing,
            ).id != node by {
                let k = edge_key(edges, p, outgoing);
                assert(keys.contains(k));
                let i = choose|i: int| 0 <= i < keys.len() && keys[i] == k;
                let u = lemma_tile_of(nodes, keys, n, i);
                assert(keys[i].k0 == nodes[u].node.0);
                if anchor(edges[p], outgoing).id == node {
                    assert(nodes[u].node == node);
                }
            }
            assert(is_stable_order(order, edges, node, outgoing));
        }
    }
    assert forall|node: NodeID| #[trigger] has_node(nodes, node) == anchors(edges, node, outgoing) by {
        assert(is_adjacency_of(csr_edges_of(nodes, out, node), edges, node, outgoing));
    }
}

/// The sorted keys are the keys of the edges, each with its position.
#[verifier::opaque]
pub open spec fn keyed(keys: Seq<SortKey>, edges: Seq<InsertableEdge>, outgoing: bool) -> bool {
    &&& keys.len() == edges.len()
    &&& edges.len() <= usize::MAX
    &&& forall|i: int|
        0 <= i < keys.len() ==> 0 <= (#[trigger] keys[i]).slot < edges.len() && keys[i] == edge_key(
            edges,
            keys[i].slot as int,
            outgoing,
        )
    &&& forall|p: int| 0 <= p < edges.len() ==> keys.contains(#[trigger] edge_key(edges, p, outgoing))
}

/// The keys of the edges, sorted.
fn sorted_edge_keys(edges: &Vec<InsertableEdge>, outgoing: bool) -> (keys: Vec<SortKey>)
    ensures
        keys_rising(keys@),
        keyed(keys@, edges@, outgoing),
{
    let n = edges.len();
    let mut raw: Vec<SortKey> = Vec::new();
    let mut p: usize = 0;
    while p < n
        invariant
            p <= n,
            n == edges.len(),
            raw.len() == p,
            forall|q: int| 0 <= q < p ==> #[trigger] raw@[q] == edge_key(edges@, q, outgoing),
        decreases n - p,
    {
        let e = &edges[p];
        let key = if outgoing {
            SortKey::new(e.from.id.0, e.to.sort_key, e.to.id.0, p)
        } else {
            SortKey::new(e.to.id.0, e.from.sort_key, e.from.id.0, p)
        };
        raw.push(key);
        p += 1;
    }
    assert(raw@.no_duplicates());
    let keys = sort_keys(&raw);
    proof {
        assert forall|i: int| 0 <= i < keys.len() implies 0 <= (#[trigger] keys@[i]).slot < n
            && keys@[i] == edge_key(edges@, keys@[i].slot as int, outgoing) by {
            assert(keys@.contains(keys@[i]));
            assert(raw@.contains(keys@[i]));
        }
        assert forall|q: int| 0 <= q < n implies keys@.contains(
            #[trigger] edge_key(edges@, q, outgoing),
        ) by {
            assert(raw@[q] == edge_key(edges@, q, outgoing));
            assert(raw@.contains(raw@[q]));
        }
        reveal(keyed);
    }
    keys
}

/// The sorted keys from `start` to `end` are the keys of one node, all of
/// them.
pub open spec fn is_run(keys: Seq<SortKey>, start: int, end: int) -> bool {
    &&& 0 <= start < end <= keys.len()
    &&& forall|i: int| start <= i < end ==> (#[trigger] keys[i]).k0 == keys[start].k0
    &&& end < keys.len() ==> keys[end].k0 != keys[start].k0
}

/// Adds to `out` the edges of the run of sorted keys that starts at `start`.
fn push_run(
    edges: &Vec<InsertableEdge>,
    keys: &Vec<SortKey>,
    outgoing: bool,
    start: usize,
    out: &mut Vec<StoredEdge<String>>,
) -> (end: usize)
    requires
        keyed(keys@, edges@, outgoing),
        start < keys.len(),
        old(out).len() == start,
    ensures
        is_run(keys@, start as int, end as int),
        end <= keys.len(),
        final(out).len() == end,
        forall|i: int| 0 <= i < start ==> #[trigger] final(out)@[i] == old(out)@[i],
        forall|i: int|
            start <= i < end ==> #[trigger] final(out)@[i] == stored(
                edges@[keys@[i].slot as int],
                outgoing,
            ),
{
    proof {
        reveal(keyed);
    }
    let n = keys.len();
    let node = keys[start].k0;
    let mut a: usize = start;
    while a < n && keys[a].k0 == node
        invariant
            start <= a <= n,
            start < n,
            n == keys.len(),
            n == edges.len(),
            forall|i: int| 0 <= i < n ==> 0 <= (#[trigger] keys@[i]).slot < n,
            keys@[start as int].k0 == node,
            out.len() == a,
            forall|i: int| 0 <= i < start ==> #[trigger] out@[i] == old(out)@[i],
            forall|i: int|
                start <= i < a ==> #[trigger] out@[i] == stored(edges@[keys@[i].slot as int], outgoing),
            forall|i: int| start <= i < a ==> (#[trigger] keys@[i]).k0 == node,
        decreases n - a,
    {
        let e = &edges[keys[a].slot];
        let edge = if outgoing {
            StoredEdge { other: e.to, label: e.label.clone(), rel: e.rel }
        } else {
            StoredEdge { other: e.from, label: e.label.clone(), rel: e.rel }
        };
        out.push(edge);
        a += 1;
    }
    a
}

/// A run of sorted keys holds every edge that its node anchors.
proof fn lemma_run_order(
    nodes: Seq<MergeNode>,
    keys: Seq<SortKey>,
    edges: Seq<InsertableEdge>,
    outgoing: bool,
    start: int,
    end: int,
) -> (order: Seq<int>)
    requires
        keys_rising(keys),
        keyed(keys, edges, outgoing),
        tiled(nodes, keys, start),
        is_run(keys, start, end),
        nodes.len() > 0 ==> nodes.last().node.0 < keys[start].k0,
    ensures
        is_stable_order(order, edges, NodeID(keys[start].k0), outgoing),
        order.len() == end - start,
{
    reveal(is_stable_order);
    reveal(tiled);
    reveal(keyed);
    let node = keys[start].k0;
    let order = Seq::new((end - start) as nat, |j: int| keys[start + j].slot as int);
    assert forall|x: int, y: int| 0 <= x < y < order.len() implies edge_key(
        edges,
        #[trigger] order[x],
        outgoing,
    ).spec_lt(edge_key(edges, #[trigger] order[y], outgoing)) by {
        assert(keys[start + x].spec_lt(keys[start + y]));
    }
    assert forall|q: int|
        0 <= q < edges.len() && anchor(#[trigger] edges[q], outgoing).id == NodeID(
            node,
        ) implies order.contains(q) by {
        let k = edge_key(edges, q, outgoing);
        assert(keys.contains(k));
        let i = choose|i: int| 0 <= i < keys.len() && keys[i] == k;
        if i < start {
            let u = lemma_tile_of(nodes, keys, start, i);
            if u < nodes.len() - 1 {
                lemma_tiled_rising(nodes, keys, start, u, nodes.len() - 1);
            }
            assert(keys[i].k0 == nodes[u].node.0);
        }
        if i >= end {
            if end < i {
                assert(keys[end].spec_lt(keys[i]));
            }
            assert(keys[start].spec_lt(keys[end]));
        }
        assert(keys[i].slot == q);
        assert(order[i - start] == q);
    }
    assert forall|t: int| 0 <= t < order.len() implies 0 <= (#[trigger] order[t]) < edges.len()
        && anchor(edges[order[t]], outgoing).id == NodeID(node) by {
        assert(keys[start + t].k0 == node);
    }
    order
}

/// A run that follows the groups is one more group.
proof fn lemma_tiled_push(
    nodes: Seq<MergeNode>,
    keys: Seq<SortKey>,
    start: int,
    end: int,
    entry: MergeNode,
)
    requires
        keys_rising(keys),
        tiled(nodes, keys, start),
        is_run(keys, start, end),
        nodes.len() > 0 ==> nodes.last().node.0 < keys[start].k0,
        entry.node.0 == keys[start].k0,
        entry.range.start == start,
        entry.range.end == end,
        entry_ok(entry, end as nat),
    ensures
        tiled(nodes.push(entry), keys, end),
        end < keys.len() ==> entry.node.0 < keys[end].k0,
{
    reveal(tiled);
    let after = nodes.push(entry);
    assert forall|t: int| 0 <= t < after.len() implies entry_ok(#[trigger] after[t], end as nat)
        && after[t].range.start < after[t].range.end by {
        if t < nodes.len() {
            assert(entry_ok(nodes[t], start as nat));
        }
    }
    assert forall|t: int| 0 <= t < after.len() - 1 implies (#[trigger] after[t]).range.end
        == after[t + 1].range.start && after[t].node.0 < after[t + 1].node.0 by {
        if t < nodes.len() - 1 {
            assert(nodes[t].range.end == nodes[t + 1].range.start);
        }
    }
    assert forall|t: int, i: int|
        0 <= t < after.len() && after[t].range.start <= i < after[t].range.end implies (
    #[trigger] keys[i]).k0 == (#[trigger] after[t]).node.0 by {
        if t < nodes.len() {
            assert(keys[i].k0 == nodes[t].node.0);
        }
    }
    if end < keys.len() {
        assert(keys[start].spec_lt(keys[end]));
    }
}

/// The adjacency of one direction for the edges `edges`.
///
/// It fails where a node anchors more edges than an `EdgeRange` can count.
pub fn build_adjacency(edges: &Vec<InsertableEdge>, outgoing: bool) -> (res: Result<
    Adjacency,
    StoreError,
>)
    ensures
        match res {
            Ok(adj) => {
                &&& adj.wf()
                &&& forall|node: NodeID|
                    is_adjacency_of(#[trigger] adj.edges_of(node), edges@, node, outgoing)
                &&& forall|node: NodeID|
                    #[trigger] has_node(adj.index(), node) == anchors(edges@, node, outgoing)
            },
            Err(e) => e == StoreError::ListTooLong && exists|node: NodeID, order: Seq<int>|
                #[trigger] is_stable_order(order, edges@, node, outgoing) && order.len() > u32::MAX,
        },
{
    let keys = sorted_edge_keys(edges, outgoing);
    let n = keys.len();
    let mut nodes: Vec<MergeNode> = Vec::new();
    let mut out: Vec<StoredEdge<String>> = Vec::new();
    let mut a: usize = 0;
    proof {
        reveal(tiled);
    }
    while a < n
        invariant
            a <= n,
            n == keys.len(),
            keys_rising(keys@),
            keyed(keys@, edges@, outgoing),
            out.len() == a,
            forall|i: int|
                0 <= i < a ==> #[trigger] out@[i] == stored(edges@[keys@[i].slot as int], outgoing),
            tiled(nodes@, keys@, a as int),
            a < n && nodes.len() > 0 ==> nodes@.last().node.0 < keys@[a as int].k0,
        decreases n - a,
    {
        let start = a;
        let node = keys[start].k0;
        a = push_run(edges, &keys, outgoing, start, &mut out);
        let count = a - start;
        if count > u32::MAX as usize {
            proof {
                let order = lemma_run_order(nodes@, keys@, edges@, outgoing, start as int, a as int);
            }
            return Err(StoreError::ListTooLong);
        }
        let entry = MergeNode::new(
            NodeID(node),
            EdgeRange { start: start as u64, end: a as u64, count: count as u32 },
            (start as u64)..(a as u64),
        );
        proof {
            lemma_tiled_push(nodes@, keys@, start as int, a as int, entry);
        }
        nodes.push(entry);
    }
    Ok(finish(nodes, out, Ghost(keys@), Ghost(edges@), Ghost(outgoing)))
}

/// The adjacency of the groups `nodes` over the edge store `out`.
fn finish(
    nodes: Vec<MergeNode>,
    out: Vec<StoredEdge<String>>,
    Ghost(keys): Ghost<Seq<SortKey>>,
    Ghost(edges): Ghost<Seq<InsertableEdge>>,
    Ghost(outgoing): Ghost<bool>,
) -> (adj: Adjacency)
    requires
        tiled(nodes@, keys, keys.len() as int),
        keys_rising(keys),
        out.len() == keys.len(),
        keyed(keys, edges, outgoing),
        forall|i: int|
            0 <= i < out.len() ==> #[trigger] out@[i] == stored(edges[keys[i].slot as int], outgoing),
    ensures
        adj.wf(),
        forall|node: NodeID| is_adjacency_of(#[trigger] adj.edges_of(node), edges, node, outgoing),
        forall|node: NodeID| #[trigger] has_node(adj.index(), node) == anchors(edges, node, outgoing),
{
    proof {
        lemma_built(nodes@, out@, keys, edges, outgoing);
    }
    Adjacency::from_parts(nodes, out)
}

/// The index of pages by host for the entries `pages`: the entries sorted,
/// each once.
pub fn build_pages(pages: &Vec<PageEntry>) -> (res: Vec<PageEntry>)
    ensures
        strictly_sorted(res@),
        forall|e: PageEntry| res@.contains(e) <==> pages@.contains(e),
{
    let n = pages.len();
    let mut singles: Vec<Vec<PageEntry>> = Vec::new();
    let mut i: usize = 0;
    while i < n
        invariant
            i <= n,
            n == pages.len(),
            singles.len() == i,
            forall|j: int| 0 <= j < i ==> (#[trigger] singles@[j])@ == seq![pages@[j]],
        decreases n - i,
    {
        let mut one: Vec<PageEntry> = Vec::new();
        one.push(pages[i]);
        assert(one@ =~= seq![pages@[i as int]]);
        singles.push(one);
        i += 1;
    }
    let ghost lists = vec_views(singles@);
    let res = fuse_all(singles);
    proof {
        assert forall|j: int| 0 <= j < lists.len() implies sorted(#[trigger] lists[j]) by {}
        lemma_fuse_sorted(lists);
        assert forall|e: PageEntry| res@.contains(e) <==> pages@.contains(e) by {
            let k = e.spec_key();
            if res@.contains(e) {
                let t = choose|t: int| 0 <= t < res@.len() && res@[t] == e;
                assert(first_over(lists, res@[t].spec_key(), lists.len()) == Some(res@[t]));
                lemma_first_over(lists, k, lists.len());
                let j = choose|j: int|
                    0 <= j < lists.len() && first_in(#[trigger] lists[j], k) == Some(e);
                lemma_first_in(lists[j], k);
                assert(lists[j][0] == e);
                assert(pages@[j] == e);
            }
            if pages@.contains(e) {
                let j = choose|j: int| 0 <= j < pages@.len() && pages@[j] == e;
                assert(lists[j][0] == e);
                lemma_first_in_at(lists[j], k, 0);
                lemma_first_over(lists, k, lists.len());
                if first_over(lists, k, lists.len()) is None {
                    assert(first_in(lists[j], k) is None);
                }
                let t = choose|t: int| 0 <= t < res@.len() && (#[trigger] res@[t]).spec_key() == k;
                assert(res@[t] == e);
            }
        }
    }
    res
}

/// What `Segment::build` makes of the edges `edges` and the pages `pages`.
pub open spec fn is_built(
    seg: Segment,
    id: Seq<char>,
    compression: Compression,
    edges: Seq<InsertableEdge>,
    pages: Seq<PageEntry>,
) -> bool {
    &&& seg.wf()
    &&& seg.spec_id() == id
    &&& seg.spec_compression() == compression
    &&& forall|node: NodeID, outgoing: bool|
        is_adjacency_of(
            #[trigger] seg.spec_direction(outgoing).edges_of(node),
            edges,
            node,
            outgoing,
        )
    &&& forall|node: NodeID, outgoing: bool|
        #[trigger] has_node(seg.spec_direction(outgoing).index(), node) == anchors(
            edges,
            node,
            outgoing,
        )
    &&& forall|e: PageEntry| seg.spec_pages().contains(e) <==> pages.contains(e)
}

/// Some node anchors more edges than an `EdgeRange` can count.
pub open spec fn crowded(edges: Seq<InsertableEdge>) -> bool {
    exists|node: NodeID, outgoing: bool, order: Seq<int>|
        #[trigger] is_stable_order(order, edges, node, outgoing) && order.len() > u32::MAX
}

impl Segment {
    /// The segment of the edges `edges` and the pages `pages`, under the id
    /// `id`.
    ///
    /// In each direction the adjacency list of a node holds the edges that
    /// the node anchors, sorted by the datum of the neighbour. It fails where
    /// a node anchors more edges than an `EdgeRange` can count.
    pub fn build(
        id: String,
        compression: Compression,
        edges: &Vec<InsertableEdge>,
        pages: &Vec<PageEntry>,
    ) -> (res: Result<Segment, StoreError>)
        ensures
            match res {
                Ok(seg) => is_built(seg, id@, compression, edges@, pages@),
                Err(e) => e == StoreError::ListTooLong && crowded(edges@),
            },
    {
        let forward = match build_adjacency(edges, true) {
            Ok(adj) => adj,
            Err(e) => {
                return Err(e);
            },
        };
        let reverse = match build_adjacency(edges, false) {
            Ok(adj) => adj,
            Err(e) => {
                return Err(e);
            },
        };
        let index = build_pages(pages);
        let seg = Segment::new(id, compression, forward, reverse, index);
        proof {
            assert forall|node: NodeID, outgoing: bool|
                is_adjacency_of(
                    #[trigger] seg.spec_direction(outgoing).edges_of(node),
                    edges@,
                    node,
                    outgoing,
                ) && has_node(seg.spec_direction(outgoing).index(), node) == anchors(
                    edges@,
                    node,
                    outgoing,
                ) by {
                if outgoing {
                    assert(seg.spec_direction(true) == forward);
                } else {
                    assert(seg.spec_direction(false) == reverse);
                }
            }
        }
        Ok(seg)
    }
}

} // verus!

verus! {

/// As `is_stable_order`, for the edges whose keys lie below `bound`.
pub open spec fn is_stable_below(
    order: Seq<int>,
    edges: Seq<InsertableEdge>,
    node: NodeID,
    outgoing: bool,
    bound: SortKey,
) -> bool {
    &&& forall|t: int|
        0 <= t < order.len() ==> 0 <= (#[trigger] order[t]) < edges.len() && anchor(
            edges[order[t]],
            outgoing,
        ).id == node && edge_key(edges, order[t], outgoing).spec_lt(bound)
    &&& forall|a: int, b: int|
        0 <= a < b < order.len() ==> edge_key(edges, #[trigger] order[a], outgoing).spec_lt(
            edge_key(edges, #[trigger] order[b], outgoing),
        )
    &&& forall|p: int|
        0 <= p < edges.len() && anchor(#[trigger] edges[p], outgoing).id == node && edge_key(
            edges,
            p,
            outgoing,
        ).spec_lt(bound) ==> order.contains(p)
}

proof fn lemma_stable_last(
    a: Seq<int>,
    b: Seq<int>,
    edges: Seq<InsertableEdge>,
    outgoing: bool,
)
    requires
        a.len() > 0,
        b.len() > 0,
        a.contains(b.last()),
        b.contains(a.last()),
        forall|x: int, y: int|
            0 <= x < y < a.len() ==> edge_key(edges, #[trigger] a[x], outgoing).spec_lt(
                edge_key(edges, #[trigger] a[y], outgoing),
            ),
        forall|x: int, y: int|
            0 <= x < y < b.len() ==> edge_key(edges, #[trigger] b[x], outgoing).spec_lt(
                edge_key(edges, #[trigger] b[y], outgoing),
            ),
    ensures
        a.last() == b.last(),
{
    let la = a.last();
    let lb = b.last();
    let tb = choose|t: int| 0 <= t < b.len() && b[t] == la;
    let ta = choose|t: int| 0 <= t < a.len() && a[t] == lb;
    if tb < b.len() - 1 {
        assert(edge_key(edges, b[tb], outgoing).spec_lt(edge_key(edges, b[b.len() - 1], outgoing)));
    }
    if ta < a.len() - 1 {
        assert(edge_key(edges, a[ta], outgoing).spec_lt(edge_key(edges, a[a.len() - 1], outgoing)));
    }
}

proof fn lemma_stable_below_unique(
    a: Seq<int>,
    b: Seq<int>,
    edges: Seq<InsertableEdge>,
    node: NodeID,
    outgoing: bool,
    bound: SortKey,
)
    requires
        is_stable_below(a, edges, node, outgoing, bound),
        is_stable_below(b, edges, node, outgoing, bound),
    ensures
        a == b,
    decreases a.len() + b.len(),
{
    if a.len() == 0 {
        if b.len() > 0 {
            assert(a.contains(b[0]));
        }
        assert(a =~= b);
    } else if b.len() == 0 {
        assert(b.contains(a[0]));
    } else {
        assert(a.contains(b[b.len() - 1]));
        assert(b.contains(a[a.len() - 1]));
        lemma_stable_last(a, b, edges, outgoing);
        let last = a.last();
        let top = edge_key(edges, last, outgoing);
        let a2 = a.drop_last();
        let b2 = b.drop_last();
        lemma_stable_below_cut(a, edges, node, outgoing, bound);
        lemma_stable_below_cut(b, edges, node, outgoing, bound);
        lemma_stable_below_unique(a2, b2, edges, node, outgoing, top);
        assert(a =~= a2.push(last));
        assert(b =~= b2.push(last));
    }
}

/// Without its last position an order is the order of the edges below that
/// position's key.
proof fn lemma_stable_below_cut(
    a: Seq<int>,
    edges: Seq<InsertableEdge>,
    node: NodeID,
    outgoing: bool,
    bound: SortKey,
)
    requires
        a.len() > 0,
        is_stable_below(a, edges, node, outgoing, bound),
    ensures
        is_stable_below(a.drop_last(), edges, node, outgoing, edge_key(edges, a.last(), outgoing)),
{
    let last = a.last();
    let top = edge_key(edges, last, outgoing);
    let a2 = a.drop_last();
    assert forall|t: int| 0 <= t < a2.len() implies 0 <= (#[trigger] a2[t]) < edges.len() && anchor(
        edges[a2[t]],
        outgoing,
    ).id == node && edge_key(edges, a2[t], outgoing).spec_lt(top) by {
        assert(a2[t] == a[t]);
        assert(edge_key(edges, a[t], outgoing).spec_lt(edge_key(edges, a[a.len() - 1], outgoing)));
    }
    assert forall|x: int, y: int| 0 <= x < y < a2.len() implies edge_key(
        edges,
        #[trigger] a2[x],
        outgoing,
    ).spec_lt(edge_key(edges, #[trigger] a2[y], outgoing)) by {
        assert(a2[x] == a[x]);
        assert(a2[y] == a[y]);
    }
    assert forall|p: int|
        0 <= p < edges.len() && anchor(#[trigger] edges[p], outgoing).id == node && edge_key(
            edges,
            p,
            outgoing,
        ).spec_lt(top) implies a2.contains(p) by {
        assert(edge_key(edges, a[a.len() - 1], outgoing).spec_lt(bound));
        assert(a.contains(p));
        let t = choose|t: int| 0 <= t < a.len() && a[t] == p;
        assert(t < a.len() - 1);
        assert(a2[t] == p);
    }
}

/// A node has one stable order only.
pub proof fn lemma_stable_order_unique(
    a: Seq<int>,
    b: Seq<int>,
    edges: Seq<InsertableEdge>,
    node: NodeID,
    outgoing: bool,
)
    requires
        is_stable_order(a, edges, node, outgoing),
        is_stable_order(b, edges, node, outgoing),
    ensures
        a == b,
{
    reveal(is_stable_order);
    if a.len() == 0 {
        if b.len() > 0 {
            assert(a.contains(b[0]));
        }
        assert(a =~= b);
    } else if b.len() == 0 {
        assert(b.contains(a[0]));
    } else {
        assert(a.contains(b[b.len() - 1]));
        assert(b.contains(a[a.len() - 1]));
        lemma_stable_last(a, b, edges, outgoing);
        let last = a.last();
        let top = edge_key(edges, last, outgoing);
        let a2 = a.drop_last();
        let b2 = b.drop_last();
        lemma_stable_order_cut(a, edges, node, outgoing);
        lemma_stable_order_cut(b, edges, node, outgoing);
        lemma_stable_below_unique(a2, b2, edges, node, outgoing, top);
        assert(a =~= a2.push(last));
        assert(b =~= b2.push(last));
    }
}

proof fn lemma_stable_order_cut(a: Seq<int>, edges: Seq<InsertableEdge>, node: NodeID, outgoing: bool)
    requires
        a.len() > 0,
        is_stable_order(a, edges, node, outgoing),
    ensures
        is_stable_below(a.drop_last(), edges, node, outgoing, edge_key(edges, a.last(), outgoing)),
{
    reveal(is_stable_order);
    let last = a.last();
    let top = edge_key(edges, last, outgoing);
    let a2 = a.drop_last();
    assert forall|t: int| 0 <= t < a2.len() implies 0 <= (#[trigger] a2[t]) < edges.len() && anchor(
        edges[a2[t]],
        outgoing,
    ).id == node && edge_key(edges, a2[t], outgoing).spec_lt(top) by {
        assert(a2[t] == a[t]);
        assert(edge_key(edges, a[t], outgoing).spec_lt(edge_key(edges, a[a.len() - 1], outgoing)));
    }
    assert forall|x: int, y: int| 0 <= x < y < a2.len() implies edge_key(
        edges,
        #[trigger] a2[x],
        outgoing,
    ).spec_lt(edge_key(edges, #[trigger] a2[y], outgoing)) by {
        assert(a2[x] == a[x]);
        assert(a2[y] == a[y]);
    }
    assert forall|p: int|
        0 <= p < edges.len() && anchor(#[trigger] edges[p], outgoing).id == node && edge_key(
            edges,
            p,
            outgoing,
        ).spec_lt(top) implies a2.contains(p) by {
        assert(a.contains(p));
        let t = choose|t: int| 0 <= t < a.len() && a[t] == p;
        assert(t < a.len() - 1);
        assert(a2[t] == p);
    }
}

/// Two stable orders of one node have the same length.
pub proof fn lemma_stable_order_len(
    a: Seq<int>,
    b: Seq<int>,
    edges: Seq<InsertableEdge>,
    node: NodeID,
    outgoing: bool,
)
    requires
        is_stable_order(a, edges, node, outgoing),
        is_stable_order(b, edges, node, outgoing),
    ensures
        a.len() == b.len(),
{
    lemma_stable_order_unique(a, b, edges, node, outgoing);
}

/// Edges that an `EdgeRange` can count are not crowded, whatever nodes
/// anchor them.
pub proof fn law_few_edges_fit(edges: Seq<InsertableEdge>)
    requires
        edges.len() <= u32::MAX,
    ensures
        !crowded(edges),
{
    if crowded(edges) {
        let (node, outgoing, order) = choose|node: NodeID, outgoing: bool, order: Seq<int>|
            #[trigger] is_stable_order(order, edges, node, outgoing) && order.len() > u32::MAX;
        reveal(is_stable_order);
        assert(order.no_duplicates()) by {
            assert forall|a: int, b: int|
                0 <= a < order.len() && 0 <= b < order.len() && a != b implies order[a]
                != order[b] by {
                if a < b {
                    assert(edge_key(edges, order[a], outgoing).spec_lt(
                        edge_key(edges, order[b], outgoing),
                    ));
                } else {
                    assert(edge_key(edges, order[b], outgoing).spec_lt(
                        edge_key(edges, order[a], outgoing),
                    ));
                }
            }
        }
        order.unique_seq_to_set();
        let all = vstd::set_lib::set_int_range(0, edges.len() as int);
        vstd::set_lib::lemma_int_range(0, edges.len() as int);
        assert(order.to_set().subset_of(all)) by {
            assert forall|p: int| order.to_set().contains(p) implies all.contains(p) by {
                let t = choose|t: int| 0 <= t < order.len() && order[t] == p;
                assert(0 <= order[t] < edges.len());
            }
        }
        vstd::set_lib::lemma_len_subset(order.to_set(), all);
    }
}

} // verus!
