//! What holds of every graph: laws of the queries, of compaction and of the
//! union of graphs.

use crate::builder::{is_adjacency_of, is_built, is_stable_order, stored, InsertableEdge};
use crate::compact::{directed, is_compaction, lists_of, segments_wf};
use crate::edge::{EdgeLimit, PageEntry, StoredEdge};
use crate::fuse::{
    all_sorted,
    first_in,
    first_over,
    fuse,
    lemma_first_in,
    lemma_first_over,
    lemma_fuse_sorted,
    strictly_sorted,
};
use crate::graph::{gathered, Webgraph};
use crate::kway::{key_lt, MergeKey};
use crate::node::{fingerprint, NodeID};
use crate::fusion::{
    fuse_edges, keyed_apart, lemma_fuse_edges_item, lemma_fuse_edges_plain,
    lemma_fuse_edges_sorted,
};
use crate::fuse::total_len;
use crate::query::{
    concat, concat_upto, datums, lemma_concat_holds, lemma_concat_item, lemma_selection,
    selection,
};
use crate::segment::{datum_sorted, lemma_datum_sorted, Compression, Segment};
use crate::sort::{is_first_of_id, lemma_selection_order, selection_order};
use vstd::prelude::*;

verus! {

/// A query answers with no neighbour twice.
pub proof fn law_neighbours_once(g: Webgraph, node: NodeID, outgoing: bool, limit: EdgeLimit)
    ensures
        forall|a: int, b: int|
            0 <= a < b < limit.spec_apply(g.spec_adjacent(node, outgoing)).len() ==> (
            #[trigger] limit.spec_apply(g.spec_adjacent(node, outgoing))[a]).other.id != (
            #[trigger] limit.spec_apply(g.spec_adjacent(node, outgoing))[b]).other.id,
{
    let all = g.spec_adjacent(node, outgoing);
    lemma_selection(gathered(g.segs(), node, outgoing));
    let cut = limit.spec_apply(all);
    assert forall|a: int, b: int| 0 <= a < b < cut.len() implies (#[trigger] cut[a]).other.id != (
    #[trigger] cut[b]).other.id by {
        assert(cut[a] == all[a]);
        assert(cut[b] == all[b]);
    }
}

/// A query with the limit `n` answers with `n` edges, or with all if there
/// are fewer: the first ones of the answer without a limit.
pub proof fn law_limit(g: Webgraph, node: NodeID, outgoing: bool, n: usize)
    ensures
        EdgeLimit::Unlimited.spec_apply(g.spec_adjacent(node, outgoing)) == g.spec_adjacent(
            node,
            outgoing,
        ),
        EdgeLimit::Limit(n).spec_apply(g.spec_adjacent(node, outgoing)).len() == if n
            < g.spec_adjacent(node, outgoing).len() {
            n as nat
        } else {
            g.spec_adjacent(node, outgoing).len()
        },
        EdgeLimit::Limit(n).spec_apply(g.spec_adjacent(node, outgoing)).is_prefix_of(
            g.spec_adjacent(node, outgoing),
        ),
{
    let all = g.spec_adjacent(node, outgoing);
    assert(EdgeLimit::Unlimited.spec_apply(all) =~= all);
}

/// A query answers in rising order of the neighbours' sort keys; neighbours
/// of one sort key come in rising order of their ids.
pub proof fn law_sorted(g: Webgraph, node: NodeID, outgoing: bool, limit: EdgeLimit)
    ensures
        forall|a: int, b: int|
            0 <= a < b < limit.spec_apply(g.spec_adjacent(node, outgoing)).len() ==> (
            #[trigger] limit.spec_apply(g.spec_adjacent(node, outgoing))[a]).other.spec_lt(
                (#[trigger] limit.spec_apply(g.spec_adjacent(node, outgoing))[b]).other,
            ),
        forall|a: int, b: int|
            0 <= a < b < limit.spec_apply(g.spec_adjacent(node, outgoing)).len() ==> (
            #[trigger] limit.spec_apply(g.spec_adjacent(node, outgoing))[a]).other.sort_key <= (
            #[trigger] limit.spec_apply(g.spec_adjacent(node, outgoing))[b]).other.sort_key,
{
    let all = g.spec_adjacent(node, outgoing);
    lemma_selection(gathered(g.segs(), node, outgoing));
    let cut = limit.spec_apply(all);
    assert forall|a: int, b: int| 0 <= a < b < cut.len() implies (#[trigger] cut[a]).other.spec_lt(
        (#[trigger] cut[b]).other,
    ) by {
        assert(cut[a] == all[a]);
        assert(cut[b] == all[b]);
    }
}

/// Every node that a query names has a name in the graph, and stands there
/// under its own fingerprint.
pub proof fn law_endpoints_resolve(g: Webgraph, node: NodeID, outgoing: bool, t: int)
    requires
        g.wf(),
        0 <= t < g.spec_adjacent(node, outgoing).len(),
    ensures
        g.names().dom().contains(node),
        NodeID(fingerprint(vstd::utf8::encode_utf8(g.names()[node]))) == node,
        g.names().dom().contains(g.spec_adjacent(node, outgoing)[t].other.id),
        NodeID(
            fingerprint(
                vstd::utf8::encode_utf8(g.names()[g.spec_adjacent(node, outgoing)[t].other.id]),
            ),
        ) == g.spec_adjacent(node, outgoing)[t].other.id,
{
    g.lemma_adjacent_resolves(node, outgoing);
}

/// Edges to one neighbour carry one sort key, and edges to different
/// neighbours carry different sort keys.
pub open spec fn consistent(g: Seq<StoredEdge<String>>) -> bool {
    forall|p: int, q: int|
        #![trigger g[p], g[q]]
        0 <= p < g.len() && 0 <= q < g.len() ==> (g[p].other.id == g[q].other.id
            <==> g[p].other.sort_key == g[q].other.sort_key)
}

/// The first item with a key in two lists, one after the other, is the first
/// in the first list, or else the first in the second.
pub proof fn lemma_first_in_concat<T: MergeKey>(a: Seq<T>, b: Seq<T>, k: (u64, u64))
    ensures
        first_in(a + b, k) == match first_in(a, k) {
            Some(x) => Some(x),
            None => first_in(b, k),
        },
    decreases a.len(),
{
    if a.len() == 0 {
        assert(a + b =~= b);
    } else {
        assert((a + b)[0] == a[0]);
        assert((a + b).drop_first() =~= a.drop_first() + b);
        if a[0].spec_key() != k {
            lemma_first_in_concat(a.drop_first(), b, k);
        }
    }
}

/// The first item with a key over the lists is the first in their
/// concatenation.
pub proof fn lemma_first_over_concat<T: MergeKey>(lists: Seq<Seq<T>>, k: (u64, u64), n: nat)
    requires
        n <= lists.len(),
    ensures
        first_over(lists, k, n) == first_in(concat_upto(lists, n), k),
    decreases n,
{
    if n > 0 {
        lemma_first_over_concat(lists, k, (n - 1) as nat);
        lemma_first_in_concat(concat_upto(lists, (n - 1) as nat), lists[n - 1], k);
    }
}

/// Two sequences of edges that rise strictly by their neighbours' data and
/// hold the same edges are the same.
pub proof fn lemma_rising_unique(a: Seq<StoredEdge<String>>, b: Seq<StoredEdge<String>>)
    requires
        strictly_sorted(a),
        strictly_sorted(b),
        forall|e: StoredEdge<String>| a.contains(e) <==> b.contains(e),
    ensures
        a == b,
    decreases a.len(),
{
    if a.len() == 0 {
        if b.len() > 0 {
            assert(b.contains(b[0]));
            assert(a.contains(b[0]));
        }
        assert(a =~= b);
    } else if b.len() == 0 {
        assert(a.contains(a[0]));
        assert(b.contains(a[0]));
    } else {
        let la = a.last();
        let lb = b.last();
        assert(a.contains(la));
        assert(b.contains(lb));
        assert(b.contains(la));
        assert(a.contains(lb));
        let tb = choose|t: int| 0 <= t < b.len() && b[t] == la;
        let ta = choose|t: int| 0 <= t < a.len() && a[t] == lb;
        if tb < b.len() - 1 {
            assert(key_lt(b[tb].spec_key(), b[b.len() - 1].spec_key()));
        }
        if ta < a.len() - 1 {
            assert(key_lt(a[ta].spec_key(), a[a.len() - 1].spec_key()));
        }
        assert(la == lb);
        let a2 = a.drop_last();
        let b2 = b.drop_last();
        assert forall|e: StoredEdge<String>| a2.contains(e) <==> b2.contains(e) by {
            if a2.contains(e) {
                let t = choose|t: int| 0 <= t < a2.len() && a2[t] == e;
                assert(a[t] == e);
                assert(key_lt(a[t].spec_key(), a[a.len() - 1].spec_key()));
                assert(a.contains(e));
                assert(b.contains(e));
                let u = choose|u: int| 0 <= u < b.len() && b[u] == e;
                assert(u < b.len() - 1);
                assert(b2[u] == e);
            }
            if b2.contains(e) {
                let t = choose|t: int| 0 <= t < b2.len() && b2[t] == e;
                assert(b[t] == e);
                assert(key_lt(b[t].spec_key(), b[b.len() - 1].spec_key()));
                assert(b.contains(e));
                assert(a.contains(e));
                let u = choose|u: int| 0 <= u < a.len() && a[u] == e;
                assert(u < a.len() - 1);
                assert(a2[u] == e);
            }
        }
        assert(strictly_sorted(a2)) by {
            assert forall|x: int, y: int| 0 <= x < y < a2.len() implies key_lt(
                (#[trigger] a2[x]).spec_key(),
                (#[trigger] a2[y]).spec_key(),
            ) by {
                assert(key_lt(a[x].spec_key(), a[y].spec_key()));
            }
        }
        assert(strictly_sorted(b2)) by {
            assert forall|x: int, y: int| 0 <= x < y < b2.len() implies key_lt(
                (#[trigger] b2[x]).spec_key(),
                (#[trigger] b2[y]).spec_key(),
            ) by {
                assert(key_lt(b[x].spec_key(), b[y].spec_key()));
            }
        }
        lemma_rising_unique(a2, b2);
        assert(a =~= a2.push(la));
        assert(b =~= b2.push(lb));
    }
}

/// Every edge of `list` carries the id of its neighbour as the sort key.
pub open spec fn self_keyed(list: Seq<StoredEdge<String>>) -> bool {
    forall|t: int| 0 <= t < list.len() ==> (#[trigger] list[t]).other.sort_key == list[t].other.id.0
}

/// In every segment every edge carries the id of its neighbour as the sort
/// key: what a writer without ranks makes.
pub open spec fn all_self_keyed(segments: Seq<Segment>) -> bool {
    forall|i: int, node: NodeID, outgoing: bool|
        0 <= i < segments.len() ==> self_keyed(
            #[trigger] segments[i].spec_direction(outgoing).edges_of(node),
        )
}

/// Both nodes of every edge carry their id as the sort key.
pub open spec fn edges_self_keyed(edges: Seq<InsertableEdge>) -> bool {
    forall|p: int|
        0 <= p < edges.len() ==> (#[trigger] edges[p]).from.sort_key == edges[p].from.id.0
            && edges[p].to.sort_key == edges[p].to.id.0
}

/// Where every edge carries the id of its neighbour as the sort key, sort
/// keys and neighbours go one to one at every node.
pub proof fn law_self_keyed_consistent(segments: Seq<Segment>, node: NodeID, outgoing: bool)
    requires
        all_self_keyed(segments),
    ensures
        consistent(gathered(segments, node, outgoing)),
        self_keyed(gathered(segments, node, outgoing)),
{
    let lists = lists_of(directed(segments, outgoing), node);
    let g = gathered(segments, node, outgoing);
    assert forall|t: int| 0 <= t < g.len() implies (#[trigger] g[t]).other.sort_key
        == g[t].other.id.0 by {
        let (i, j) = lemma_concat_item(lists, lists.len(), t);
        assert(self_keyed(segments[i].spec_direction(outgoing).edges_of(node)));
        assert(lists[i][j].other.sort_key == lists[i][j].other.id.0);
    }
    assert forall|p: int, q: int|
        #![trigger g[p], g[q]]
        0 <= p < g.len() && 0 <= q < g.len() implies (g[p].other.id == g[q].other.id
        <==> g[p].other.sort_key == g[q].other.sort_key) by {
        assert(g[p].other.sort_key == g[p].other.id.0);
        assert(g[q].other.sort_key == g[q].other.id.0);
    }
}

/// A segment built of edges whose nodes carry their ids as sort keys holds
/// such edges only.
pub proof fn lemma_built_self_keyed(
    seg: Segment,
    id: Seq<char>,
    compression: Compression,
    edges: Seq<InsertableEdge>,
    pages: Seq<PageEntry>,
)
    requires
        is_built(seg, id, compression, edges, pages),
        edges_self_keyed(edges),
    ensures
        forall|node: NodeID, outgoing: bool|
            self_keyed(#[trigger] seg.spec_direction(outgoing).edges_of(node)),
{
    reveal(is_stable_order);
    assert forall|node: NodeID, outgoing: bool|
        self_keyed(#[trigger] seg.spec_direction(outgoing).edges_of(node)) by {
        let list = seg.spec_direction(outgoing).edges_of(node);
        assert(is_adjacency_of(list, edges, node, outgoing));
        let order = choose|order: Seq<int>|
            #![trigger is_stable_order(order, edges, node, outgoing)]
            is_stable_order(order, edges, node, outgoing) && list.len() == order.len() && forall|
                t: int,
            |
                0 <= t < list.len() ==> #[trigger] list[t] == stored(edges[order[t]], outgoing);
        assert forall|t: int| 0 <= t < list.len() implies (#[trigger] list[t]).other.sort_key
            == list[t].other.id.0 by {
            assert(0 <= order[t] < edges.len());
            assert(list[t] == stored(edges[order[t]], outgoing));
        }
    }
}

/// Segments whose edges carry the ids of their neighbours as sort keys, put
/// behind one another, are such segments.
pub proof fn lemma_union_self_keyed(a: Seq<Segment>, b: Seq<Segment>)
    requires
        all_self_keyed(a),
        all_self_keyed(b),
    ensures
        all_self_keyed(a + b),
{
    assert forall|i: int, node: NodeID, outgoing: bool| 0 <= i < (a + b).len() implies self_keyed(
        #[trigger] (a + b)[i].spec_direction(outgoing).edges_of(node),
    ) by {
        if i < a.len() {
            assert((a + b)[i] == a[i]);
            assert(self_keyed(a[i].spec_direction(outgoing).edges_of(node)));
        } else {
            assert((a + b)[i] == b[i - a.len()]);
            assert(self_keyed(b[i - a.len()].spec_direction(outgoing).edges_of(node)));
        }
    }
}

/// The compaction of segments whose edges carry the ids of their neighbours
/// as sort keys holds such edges only.
pub proof fn lemma_compaction_self_keyed(
    segments: Seq<Segment>,
    seg: Segment,
    compression: Compression,
    id: Seq<char>,
)
    requires
        segments_wf(segments),
        all_self_keyed(segments),
        is_compaction(seg, segments, compression, id),
    ensures
        all_self_keyed(seq![seg]),
{
    assert forall|i: int, node: NodeID, outgoing: bool| 0 <= i < seq![seg].len() implies self_keyed(
        #[trigger] seq![seg][i].spec_direction(outgoing).edges_of(node),
    ) by {
        let lists = lists_of(directed(segments, outgoing), node);
        let list = seg.spec_direction(outgoing).edges_of(node);
        assert(list == fuse_edges(lists));
        assert forall|k: int| 0 <= k < lists.len() implies datum_sorted(#[trigger] lists[k]) by {
            segments[k].lemma_wf();
            directed(segments, outgoing)[k].lemma_edges_sorted(node);
        }
        law_merged_sort_keys(lists);
        assert forall|t: int| 0 <= t < list.len() implies (#[trigger] list[t]).other.sort_key
            == list[t].other.id.0 by {
            let k = choose|k: int|
                0 <= k < lists.len() && (#[trigger] lists[k]).contains(
                    #[trigger] fuse_edges(lists)[t],
                );
            let j = choose|j: int| 0 <= j < lists[k].len() && lists[k][j] == list[t];
            assert(self_keyed(segments[k].spec_direction(outgoing).edges_of(node)));
            assert(lists[k][j].other.sort_key == lists[k][j].other.id.0);
        }
    }
}

/// The selection rises strictly by the neighbours' data, and holds exactly
/// the edges of `g` that are the first to their neighbour.
pub proof fn lemma_selection_members(g: Seq<StoredEdge<String>>)
    ensures
        forall|a: int, b: int|
            0 <= a < b < selection(g).len() ==> (#[trigger] selection(g)[a]).other.spec_lt(
                (#[trigger] selection(g)[b]).other,
            ),
        forall|e: StoredEdge<String>|
            selection(g).contains(e) <==> exists|p: int|
                0 <= p < g.len() && #[trigger] g[p] == e && is_first_of_id(datums(g), p),
{
    let data = datums(g);
    let order = selection_order(data);
    let sel = selection(g);
    lemma_selection_order(data);
    lemma_selection(g);
    assert forall|e: StoredEdge<String>|
        sel.contains(e) <==> exists|p: int|
            0 <= p < g.len() && #[trigger] g[p] == e && is_first_of_id(data, p) by {
        if sel.contains(e) {
            let t = choose|t: int| 0 <= t < sel.len() && sel[t] == e;
            assert(g[order[t]] == e);
        }
        if exists|p: int| 0 <= p < g.len() && #[trigger] g[p] == e && is_first_of_id(data, p) {
            let p = choose|p: int| 0 <= p < g.len() && #[trigger] g[p] == e && is_first_of_id(data, p);
            let t = choose|t: int| 0 <= t < order.len() && #[trigger] order[t] == p;
            assert(sel[t] == e);
        }
    }
}

/// Where sort keys and neighbours go one to one among the edges `g`, the
/// selection from edges of `g` rises strictly by the sort keys.
pub proof fn lemma_selection_rises(sel: Seq<StoredEdge<String>>, g: Seq<StoredEdge<String>>)
    requires
        consistent(g),
        forall|t: int| 0 <= t < sel.len() ==> g.contains(#[trigger] sel[t]),
        forall|a: int, b: int|
            0 <= a < b < sel.len() ==> (#[trigger] sel[a]).other.spec_lt((#[trigger] sel[b]).other),
        forall|a: int, b: int|
            0 <= a < b < sel.len() ==> (#[trigger] sel[a]).other.id != (#[trigger] sel[b]).other.id,
    ensures
        strictly_sorted(sel),
{
    assert forall|a: int, b: int| 0 <= a < b < sel.len() implies key_lt(
        (#[trigger] sel[a]).spec_key(),
        (#[trigger] sel[b]).spec_key(),
    ) by {
        assert(g.contains(sel[a]));
        assert(g.contains(sel[b]));
        let p = choose|p: int| 0 <= p < g.len() && g[p] == sel[a];
        let q = choose|q: int| 0 <= q < g.len() && g[q] == sel[b];
        assert(g[p].other.id != g[q].other.id);
        assert(g[p].other.sort_key != g[q].other.sort_key);
        assert(sel[a].other.spec_lt(sel[b].other));
    }
}

/// Where sort keys and neighbours go one to one among all edges of the
/// lists, edges of one sort key lead to one neighbour.
pub proof fn lemma_consistent_apart(lists: Seq<Seq<StoredEdge<String>>>)
    requires
        consistent(concat(lists)),
    ensures
        keyed_apart(lists),
{
    let g = concat(lists);
    assert forall|i: int, j: int, a: int, b: int|
        #![trigger lists[i][j], lists[a][b]]
        0 <= i < lists.len() && 0 <= j < lists[i].len() && 0 <= a < lists.len() && 0 <= b
            < lists[a].len() && lists[i][j].other.sort_key
            == lists[a][b].other.sort_key implies lists[i][j].other.id == lists[a][b].other.id by {
        lemma_concat_holds(lists, lists.len(), i, j);
        lemma_concat_holds(lists, lists.len(), a, b);
        let p = choose|p: int| 0 <= p < g.len() && g[p] == lists[i][j];
        let q = choose|q: int| 0 <= q < g.len() && g[q] == lists[a][b];
        assert(g[p].other.id == g[q].other.id <==> g[p].other.sort_key == g[q].other.sort_key);
    }
}

/// Where sort keys and neighbours go one to one, the fusion of sorted lists
/// is what a query selects from the lists.
pub proof fn lemma_fuse_is_selection(lists: Seq<Seq<StoredEdge<String>>>)
    requires
        all_sorted(lists),
        consistent(concat(lists)),
    ensures
        fuse_edges(lists) == selection(concat(lists)),
{
    lemma_consistent_apart(lists);
    lemma_fuse_edges_plain(lists, total_len(lists));
    assert(fuse_edges(lists) == fuse(lists));
    let g = concat(lists);
    let data = datums(g);
    let f = fuse(lists);
    let sel = selection(g);
    let n = lists.len();
    lemma_fuse_sorted(lists);
    lemma_selection_members(g);
    lemma_selection(g);
    lemma_selection_rises(sel, g);
    assert forall|e: StoredEdge<String>| f.contains(e) <==> sel.contains(e) by {
        let k = e.spec_key();
        lemma_first_over_concat(lists, k, n);
        lemma_first_in(g, k);
        if f.contains(e) {
            let t = choose|t: int| 0 <= t < f.len() && f[t] == e;
            assert(first_over(lists, f[t].spec_key(), n) == Some(f[t]));
            let p = choose|p: int|
                0 <= p < g.len() && #[trigger] g[p] == e && e.spec_key() == k && forall|a: int|
                    0 <= a < p ==> (#[trigger] g[a]).spec_key() != k;
            assert forall|q: int| 0 <= q < p implies (#[trigger] data[q]).id != data[p].id by {
                if data[q].id == data[p].id {
                    assert(g[q].other.id == g[p].other.id);
                    assert(g[q].other.sort_key == g[p].other.sort_key);
                    assert(g[q].spec_key() == k);
                }
            }
            assert(g[p] == e && is_first_of_id(data, p));
        }
        if sel.contains(e) {
            let p = choose|p: int| 0 <= p < g.len() && #[trigger] g[p] == e && is_first_of_id(data, p);
            // some edge with the sort key of `e` is the first with it
            match first_in(g, k) {
                Some(x) => {
                    let q = choose|q: int|
                        0 <= q < g.len() && #[trigger] g[q] == x && x.spec_key() == k && forall|
                            a: int,
                        | 0 <= a < q ==> (#[trigger] g[a]).spec_key() != k;
                    if q < p {
                        assert(g[q].other.sort_key == g[p].other.sort_key);
                        assert(g[q].other.id == g[p].other.id);
                        assert(data[q].id != data[p].id);
                    }
                    if p < q {
                        assert(g[p].spec_key() != k);
                    }
                    assert(first_over(lists, k, n) is Some);
                    let t = choose|t: int| 0 <= t < f.len() && (#[trigger] f[t]).spec_key() == k;
                    assert(first_over(lists, f[t].spec_key(), n) == Some(f[t]));
                    assert(f[t] == e);
                },
                None => {
                    assert(g[p].spec_key() != k);
                },
            }
        }
    }
    lemma_rising_unique(f, sel);
}

/// A sequence of edges that rises strictly by the sort keys, and in which
/// sort keys and neighbours go one to one, is its own selection.
pub proof fn lemma_selection_of_rising(f: Seq<StoredEdge<String>>)
    requires
        strictly_sorted(f),
        consistent(f),
    ensures
        selection(f) == f,
{
    let data = datums(f);
    lemma_selection_members(f);
    lemma_selection(f);
    let sel = selection(f);
    lemma_selection_rises(sel, f);
    assert forall|e: StoredEdge<String>| sel.contains(e) <==> f.contains(e) by {
        if f.contains(e) {
            let p = choose|p: int| 0 <= p < f.len() && f[p] == e;
            assert forall|q: int| 0 <= q < p implies (#[trigger] data[q]).id != data[p].id by {
                assert(key_lt(f[q].spec_key(), f[p].spec_key()));
                if data[q].id == data[p].id {
                    assert(f[q].other.id == f[p].other.id);
                    assert(f[q].other.sort_key == f[p].other.sort_key);
                }
            }
            assert(f[p] == e && is_first_of_id(data, p));
        }
        if sel.contains(e) {
            let p = choose|p: int| 0 <= p < f.len() && #[trigger] f[p] == e && is_first_of_id(data, p);
            assert(f[p] == e);
        }
    }
    lemma_rising_unique(sel, f);
}

/// An edge of `list` carries the sort key `k`.
pub open spec fn has_sort_key(list: Seq<StoredEdge<String>>, k: u64) -> bool {
    exists|t: int| 0 <= t < list.len() && (#[trigger] list[t]).other.sort_key == k
}

/// What a merge of adjacency lists yields when it is run to the end. Where
/// every list is sorted by its neighbours, the sort keys of the edges that
/// come out rise strictly, every edge that comes out is an edge of a list,
/// and every sort key of a list comes out.
pub proof fn law_merged_sort_keys(lists: Seq<Seq<StoredEdge<String>>>)
    requires
        forall|i: int| 0 <= i < lists.len() ==> datum_sorted(#[trigger] lists[i]),
    ensures
        forall|a: int, b: int|
            0 <= a < b < fuse_edges(lists).len() ==> (#[trigger] fuse_edges(
                lists,
            )[a]).other.sort_key < (#[trigger] fuse_edges(lists)[b]).other.sort_key,
        forall|t: int|
            0 <= t < fuse_edges(lists).len() ==> exists|i: int|
                0 <= i < lists.len() && (#[trigger] lists[i]).contains(
                    #[trigger] fuse_edges(lists)[t],
                ),
        forall|i: int, j: int|
            0 <= i < lists.len() && 0 <= j < lists[i].len() ==> has_sort_key(
                fuse_edges(lists),
                (#[trigger] lists[i][j]).other.sort_key,
            ),
{
    let f = fuse_edges(lists);
    let plain = fuse(lists);
    let n = lists.len();
    assert(all_sorted(lists)) by {
        assert forall|i: int| 0 <= i < lists.len() implies crate::fuse::sorted(
            #[trigger] lists[i],
        ) by {
            lemma_datum_sorted(lists[i]);
        }
    }
    lemma_fuse_sorted(lists);
    lemma_fuse_edges_sorted(lists);
    assert forall|a: int, b: int| 0 <= a < b < f.len() implies (#[trigger] f[a]).other.sort_key < (
    #[trigger] f[b]).other.sort_key by {
        assert(key_lt(f[a].spec_key(), f[b].spec_key()));
    }
    assert forall|t: int| 0 <= t < f.len() implies exists|i: int|
        0 <= i < lists.len() && (#[trigger] lists[i]).contains(#[trigger] f[t]) by {
        let at = lemma_fuse_edges_item(lists, total_len(lists), t);
        assert(lists[at.0][at.1] == f[t]);
        assert(lists[at.0].contains(f[t]));
    }
    assert forall|i: int, j: int|
        0 <= i < lists.len() && 0 <= j < lists[i].len() implies has_sort_key(
        f,
        (#[trigger] lists[i][j]).other.sort_key,
    ) by {
        let k = lists[i][j].spec_key();
        lemma_first_over(lists, k, n);
        lemma_first_in(lists[i], k);
        assert(first_in(lists[i], k) is Some);
        assert(first_over(lists, k, n) is Some);
        let t = choose|t: int| 0 <= t < plain.len() && (#[trigger] plain[t]).spec_key() == k;
        assert(f[t].spec_key() == plain[t].spec_key());
        assert(f[t].other.sort_key == lists[i][j].other.sort_key);
    }
}

/// The lists of well-formed segments are sorted.
pub proof fn lemma_lists_sorted(segments: Seq<Segment>, node: NodeID, outgoing: bool)
    requires
        segments_wf(segments),
    ensures
        all_sorted(lists_of(directed(segments, outgoing), node)),
{
    let lists = lists_of(directed(segments, outgoing), node);
    assert forall|i: int| 0 <= i < lists.len() implies crate::fuse::sorted(#[trigger] lists[i]) by {
        segments[i].lemma_wf();
        directed(segments, outgoing)[i].lemma_edges_sorted(node);
    }
}

/// Compaction changes no answer: where sort keys and neighbours go one to one
/// among the edges that the segments hold at `node`, a query at `node`
/// selects from the compaction what it selected from the segments.
pub proof fn law_compaction_keeps_answers(
    segments: Seq<Segment>,
    seg: Segment,
    compression: Compression,
    id: Seq<char>,
    node: NodeID,
    outgoing: bool,
)
    requires
        segments_wf(segments),
        is_compaction(seg, segments, compression, id),
        consistent(gathered(segments, node, outgoing)),
    ensures
        selection(gathered(seq![seg], node, outgoing)) == selection(
            gathered(segments, node, outgoing),
        ),
{
    let lists = lists_of(directed(segments, outgoing), node);
    let g = gathered(segments, node, outgoing);
    let f = fuse_edges(lists);
    lemma_lists_sorted(segments, node, outgoing);
    lemma_fuse_is_selection(lists);
    lemma_selection(g);
    // the compaction holds the fusion, which is the old answer
    let after = lists_of(directed(seq![seg], outgoing), node);
    assert(after[0] == f);
    assert(concat_upto(after, 0) =~= Seq::<StoredEdge<String>>::empty());
    assert(gathered(seq![seg], node, outgoing) =~= f);
    // and the old answer is its own selection
    lemma_fuse_edges_sorted(lists);
    assert(consistent(f)) by {
        assert forall|p: int, q: int|
            #![trigger f[p], f[q]]
            0 <= p < f.len() && 0 <= q < f.len() implies (f[p].other.id == f[q].other.id
            <==> f[p].other.sort_key == f[q].other.sort_key) by {
            assert(g.contains(f[p]));
            assert(g.contains(f[q]));
            let a = choose|a: int| 0 <= a < g.len() && g[a] == f[p];
            let b = choose|b: int| 0 <= b < g.len() && g[b] == f[q];
            assert(g[a].other.id == g[b].other.id <==> g[a].other.sort_key == g[b].other.sort_key);
        }
    }
    lemma_selection_of_rising(f);
}

/// The edges of two lists of segments at a node are the edges of the first
/// and then the edges of the second.
pub proof fn lemma_gathered_concat(a: Seq<Segment>, b: Seq<Segment>, node: NodeID, outgoing: bool)
    ensures
        gathered(a + b, node, outgoing) == gathered(a, node, outgoing) + gathered(b, node, outgoing),
{
    lemma_gathered_upto(a, b, node, outgoing, b.len());
    assert((a + b).len() == a.len() + b.len());
}

proof fn lemma_gathered_upto(a: Seq<Segment>, b: Seq<Segment>, node: NodeID, outgoing: bool, n: nat)
    requires
        n <= b.len(),
    ensures
        concat_upto(lists_of(directed(a + b, outgoing), node), a.len() + n) == gathered(
            a,
            node,
            outgoing,
        ) + concat_upto(lists_of(directed(b, outgoing), node), n),
    decreases n,
{
    let all = lists_of(directed(a + b, outgoing), node);
    let first = lists_of(directed(a, outgoing), node);
    let second = lists_of(directed(b, outgoing), node);
    if n == 0 {
        lemma_gathered_prefix(a, b, node, outgoing, a.len());
        assert(gathered(a, node, outgoing) + concat_upto(second, 0) =~= gathered(a, node, outgoing));
    } else {
        lemma_gathered_upto(a, b, node, outgoing, (n - 1) as nat);
        assert((a + b)[a.len() + n - 1] == b[n - 1]);
        assert(all[a.len() + n - 1] == second[n - 1]);
        assert(concat_upto(all, a.len() + n) =~= gathered(a, node, outgoing) + concat_upto(
            second,
            n,
        ));
    }
}

proof fn lemma_gathered_prefix(a: Seq<Segment>, b: Seq<Segment>, node: NodeID, outgoing: bool, n: nat)
    requires
        n <= a.len(),
    ensures
        concat_upto(lists_of(directed(a + b, outgoing), node), n) == concat_upto(
            lists_of(directed(a, outgoing), node),
            n,
        ),
    decreases n,
{
    if n > 0 {
        lemma_gathered_prefix(a, b, node, outgoing, (n - 1) as nat);
        assert((a + b)[n - 1] == a[n - 1]);
    }
}

/// The segments hold an edge at `node`, or an edge to `node`, in some
/// direction.
pub open spec fn knows(segments: Seq<Segment>, node: NodeID) -> bool {
    ||| exists|outgoing: bool| (#[trigger] gathered(segments, node, outgoing)).len() > 0
    ||| exists|other: NodeID, outgoing: bool, j: int|
        0 <= j < gathered(segments, other, outgoing).len() && (#[trigger] gathered(
            segments,
            other,
            outgoing,
        )[j]).other.id == node
}

/// No node is known to both lists of segments.
pub open spec fn disjoint_nodes(a: Seq<Segment>, b: Seq<Segment>) -> bool {
    forall|node: NodeID| !(#[trigger] knows(a, node) && #[trigger] knows(b, node))
}

/// The union of two graphs without a common node answers with the edges of
/// the one and with the edges of the other: at every node a query selects
/// from the segments of both what it selected from the segments of the graph
/// that knows the node.
pub proof fn law_union_of_disjoint(a: Seq<Segment>, b: Seq<Segment>, node: NodeID, outgoing: bool)
    requires
        disjoint_nodes(a, b),
    ensures
        selection(gathered(a + b, node, outgoing)) == selection(gathered(a, node, outgoing))
            + selection(gathered(b, node, outgoing)),
        selection(gathered(a, node, outgoing)).len() == 0 || selection(
            gathered(b, node, outgoing),
        ).len() == 0,
{
    let ga = gathered(a, node, outgoing);
    let gb = gathered(b, node, outgoing);
    lemma_gathered_concat(a, b, node, outgoing);
    lemma_selection(ga);
    lemma_selection(gb);
    if ga.len() > 0 && gb.len() > 0 {
        assert(knows(a, node));
        assert(knows(b, node));
    }
    if ga.len() == 0 {
        assert(ga + gb =~= gb);
        assert(selection(ga) + selection(gb) =~= selection(gb));
    } else {
        assert(ga + gb =~= ga);
        assert(selection(ga) + selection(gb) =~= selection(ga));
    }
}

} // verus!

verus! {

/// Compaction changes no answer of the graph: where sort keys and neighbours
/// go one to one among the edges that the segments of `before` hold at
/// `node`, and `after` holds the compaction of these segments as its one
/// segment, a query at `node` answers from `after` what it answered from
/// `before`.
pub proof fn law_merge_all_segments_keeps_answers(
    before: Webgraph,
    after: Webgraph,
    compression: Compression,
    node: NodeID,
    outgoing: bool,
    limit: EdgeLimit,
)
    requires
        before.wf(),
        after.segs().len() == 1,
        is_compaction(after.segs()[0], before.segs(), compression, after.segs()[0].spec_id()),
        consistent(gathered(before.segs(), node, outgoing)),
    ensures
        after.spec_adjacent(node, outgoing) == before.spec_adjacent(node, outgoing),
        limit.spec_apply(after.spec_adjacent(node, outgoing)) == limit.spec_apply(
            before.spec_adjacent(node, outgoing),
        ),
{
    assert(after.segs() =~= seq![after.segs()[0]]);
    law_compaction_keeps_answers(
        before.segs(),
        after.segs()[0],
        compression,
        after.segs()[0].spec_id(),
        node,
        outgoing,
    );
}

/// Compaction changes no answer of a graph in which every node carries its id
/// as the sort key, which is what writers without ranks make, and the graphs
/// united of such graphs.
pub proof fn law_merge_all_segments_keeps_answers_without_ranks(
    before: Webgraph,
    after: Webgraph,
    compression: Compression,
    node: NodeID,
    outgoing: bool,
    limit: EdgeLimit,
)
    requires
        before.wf(),
        all_self_keyed(before.segs()),
        after.segs().len() == 1,
        is_compaction(after.segs()[0], before.segs(), compression, after.segs()[0].spec_id()),
    ensures
        after.spec_adjacent(node, outgoing) == before.spec_adjacent(node, outgoing),
        limit.spec_apply(after.spec_adjacent(node, outgoing)) == limit.spec_apply(
            before.spec_adjacent(node, outgoing),
        ),
        all_self_keyed(after.segs()),
{
    law_self_keyed_consistent(before.segs(), node, outgoing);
    law_merge_all_segments_keeps_answers(before, after, compression, node, outgoing, limit);
    assert(after.segs() =~= seq![after.segs()[0]]);
    lemma_compaction_self_keyed(
        before.segs(),
        after.segs()[0],
        compression,
        after.segs()[0].spec_id(),
    );
}

/// The union of two graphs without a common node answers with the edges of
/// the one and with the edges of the other: where `merged` holds the segments
/// of `a` and then those of `b`, a query at a node answers from `merged` what
/// it answers from the graph that knows the node.
pub proof fn law_merge_unites(a: Webgraph, b: Webgraph, merged: Webgraph, node: NodeID, outgoing: bool)
    requires
        merged.segs() == a.segs() + b.segs(),
        disjoint_nodes(a.segs(), b.segs()),
    ensures
        merged.spec_adjacent(node, outgoing) == a.spec_adjacent(node, outgoing) + b.spec_adjacent(
            node,
            outgoing,
        ),
        a.spec_adjacent(node, outgoing).len() == 0 || b.spec_adjacent(node, outgoing).len() == 0,
{
    law_union_of_disjoint(a.segs(), b.segs(), node, outgoing);
}

} // verus!
