//! The two indices of a segment hold the same edges: what builds segments
//! with this property, what keeps it, and what it means for the answers of a
//! graph.

use crate::builder::{is_adjacency_of, is_built, is_stable_order, stored, InsertableEdge};
use crate::compact::{directed, is_compaction, lists_of, segments_wf};
use crate::edge::{PageEntry, RelFlags, StoredEdge};
use crate::graph::{gathered, Webgraph};
use crate::laws::{
    all_self_keyed, consistent, law_self_keyed_consistent, lemma_fuse_is_selection,
    lemma_lists_sorted,
};
use crate::node::NodeID;
use crate::query::{
    concat, leads_to, lemma_concat_holds, lemma_concat_item, lemma_selection, selection,
};
use crate::segment::{Compression, Segment};
use vstd::prelude::*;

verus! {

/// `list` holds an edge to the node `to` with the label `label` and the
/// flags `rel`.
pub open spec fn holds_edge(
    list: Seq<StoredEdge<String>>,
    to: NodeID,
    label: Seq<char>,
    rel: RelFlags,
) -> bool {
    exists|t: int|
        0 <= t < list.len() && (#[trigger] list[t]).other.id == to && list[t].label@ == label
            && list[t].rel == rel
}

/// The index of `seg` in one direction holds, at the node `at`, an edge to
/// the node `to` with the label `label` and the flags `rel`.
pub open spec fn links(
    seg: Segment,
    outgoing: bool,
    at: NodeID,
    to: NodeID,
    label: Seq<char>,
    rel: RelFlags,
) -> bool {
    holds_edge(seg.spec_direction(outgoing).edges_of(at), to, label, rel)
}

/// The two indices of `seg` hold the same edges: an edge from `u` to `v` is
/// in the outgoing list of `u` exactly if it is in the ingoing list of `v`.
pub open spec fn mirrored(seg: Segment) -> bool {
    forall|u: NodeID, v: NodeID, label: Seq<char>, rel: RelFlags|
        #![trigger links(seg, true, u, v, label, rel)]
        #![trigger links(seg, false, v, u, label, rel)]
        links(seg, true, u, v, label, rel) == links(seg, false, v, u, label, rel)
}

/// The two indices of every segment hold the same edges.
pub open spec fn all_mirrored(segments: Seq<Segment>) -> bool {
    forall|i: int| 0 <= i < segments.len() ==> mirrored(#[trigger] segments[i])
}

/// The index of `seg` in one direction holds, at the node `at`, an edge to
/// the node `to`.
pub open spec fn reaches(seg: Segment, outgoing: bool, at: NodeID, to: NodeID) -> bool {
    leads_to(seg.spec_direction(outgoing).edges_of(at), to)
}

/// The two indices of `seg` link the same nodes: the outgoing list of `u`
/// leads to `v` exactly if the ingoing list of `v` leads to `u`. Labels and
/// flags are left aside.
pub open spec fn linked(seg: Segment) -> bool {
    forall|u: NodeID, v: NodeID|
        #![trigger reaches(seg, true, u, v)]
        #![trigger reaches(seg, false, v, u)]
        reaches(seg, true, u, v) == reaches(seg, false, v, u)
}

/// The two indices of every segment link the same nodes.
pub open spec fn all_linked(segments: Seq<Segment>) -> bool {
    forall|i: int| 0 <= i < segments.len() ==> linked(#[trigger] segments[i])
}

/// At every node and in both directions, sort keys and neighbours go one to
/// one among the edges that the segments hold.
pub open spec fn one_to_one(segments: Seq<Segment>) -> bool {
    forall|node: NodeID, outgoing: bool|
        #![trigger gathered(segments, node, outgoing)]
        consistent(gathered(segments, node, outgoing))
}

/// Edges of `g` that lead to one neighbour carry one label and the same
/// flags.
pub open spec fn settled(g: Seq<StoredEdge<String>>) -> bool {
    forall|p: int, q: int|
        #![trigger g[p], g[q]]
        0 <= p < g.len() && 0 <= q < g.len() && g[p].other.id == g[q].other.id ==> g[p].label@
            == g[q].label@ && g[p].rel == g[q].rel
}

/// At every node and in both directions, sort keys and neighbours go one to
/// one among the edges that the segments hold, and edges to one neighbour
/// carry one label and the same flags.
pub open spec fn agreeing(segments: Seq<Segment>) -> bool {
    forall|node: NodeID, outgoing: bool|
        #![trigger gathered(segments, node, outgoing)]
        consistent(gathered(segments, node, outgoing)) && settled(
            gathered(segments, node, outgoing),
        )
}

/// An edge that one index of a built segment holds is held by the other.
proof fn lemma_built_link(
    seg: Segment,
    id: Seq<char>,
    compression: Compression,
    edges: Seq<InsertableEdge>,
    pages: Seq<PageEntry>,
    outgoing: bool,
    at: NodeID,
    to: NodeID,
    label: Seq<char>,
    rel: RelFlags,
)
    requires
        is_built(seg, id, compression, edges, pages),
        links(seg, outgoing, at, to, label, rel),
    ensures
        links(seg, !outgoing, to, at, label, rel),
{
    reveal(is_stable_order);
    let turned = !outgoing;
    let list = seg.spec_direction(outgoing).edges_of(at);
    let back = seg.spec_direction(turned).edges_of(to);
    assert(is_adjacency_of(list, edges, at, outgoing));
    assert(is_adjacency_of(back, edges, to, turned));
    let order = choose|order: Seq<int>|
        #![trigger is_stable_order(order, edges, at, outgoing)]
        is_stable_order(order, edges, at, outgoing) && list.len() == order.len() && forall|t: int|
            0 <= t < list.len() ==> #[trigger] list[t] == stored(edges[order[t]], outgoing);
    let other = choose|other: Seq<int>|
        #![trigger is_stable_order(other, edges, to, turned)]
        is_stable_order(other, edges, to, turned) && back.len() == other.len() && forall|t: int|
            0 <= t < back.len() ==> #[trigger] back[t] == stored(edges[other[t]], turned);
    let t = choose|t: int|
        0 <= t < list.len() && (#[trigger] list[t]).other.id == to && list[t].label@ == label
            && list[t].rel == rel;
    let p = order[t];
    assert(list[t] == stored(edges[p], outgoing));
    assert(0 <= p < edges.len());
    assert(other.contains(p));
    let r = choose|r: int| 0 <= r < other.len() && other[r] == p;
    assert(back[r] == stored(edges[p], !outgoing));
    assert(back[r].other.id == at && back[r].label@ == label && back[r].rel == rel);
}

/// The two indices of a built segment hold the same edges.
pub proof fn law_built_is_mirrored(
    seg: Segment,
    id: Seq<char>,
    compression: Compression,
    edges: Seq<InsertableEdge>,
    pages: Seq<PageEntry>,
)
    requires
        is_built(seg, id, compression, edges, pages),
    ensures
        mirrored(seg),
{
    assert forall|u: NodeID, v: NodeID, label: Seq<char>, rel: RelFlags|
        #![trigger links(seg, true, u, v, label, rel)]
        #![trigger links(seg, false, v, u, label, rel)]
        links(seg, true, u, v, label, rel) == links(seg, false, v, u, label, rel) by {
        if links(seg, true, u, v, label, rel) {
            lemma_built_link(seg, id, compression, edges, pages, true, u, v, label, rel);
        }
        if links(seg, false, v, u, label, rel) {
            lemma_built_link(seg, id, compression, edges, pages, false, v, u, label, rel);
        }
    }
}

/// Segments whose indices hold the same edges, put behind one another, are
/// segments whose indices hold the same edges.
pub proof fn law_union_keeps_mirror(a: Seq<Segment>, b: Seq<Segment>)
    requires
        all_mirrored(a),
        all_mirrored(b),
    ensures
        all_mirrored(a + b),
{
    assert forall|i: int| 0 <= i < (a + b).len() implies mirrored(#[trigger] (a + b)[i]) by {
        if i < a.len() {
            assert((a + b)[i] == a[i]);
        } else {
            assert((a + b)[i] == b[i - a.len()]);
        }
    }
}

/// An edge that some segment holds is among the edges gathered at its node.
proof fn lemma_gathered_holds(segments: Seq<Segment>, i: int, node: NodeID, outgoing: bool, t: int)
    requires
        0 <= i < segments.len(),
        0 <= t < segments[i].spec_direction(outgoing).edges_of(node).len(),
    ensures
        gathered(segments, node, outgoing).contains(
            segments[i].spec_direction(outgoing).edges_of(node)[t],
        ),
{
    let lists = lists_of(directed(segments, outgoing), node);
    assert(lists[i] == segments[i].spec_direction(outgoing).edges_of(node));
    lemma_concat_holds(lists, lists.len(), i, t);
}

/// An edge that one index of a compaction holds is held by the other.
proof fn lemma_compaction_link(
    segments: Seq<Segment>,
    seg: Segment,
    compression: Compression,
    id: Seq<char>,
    outgoing: bool,
    at: NodeID,
    to: NodeID,
    label: Seq<char>,
    rel: RelFlags,
)
    requires
        segments_wf(segments),
        all_mirrored(segments),
        agreeing(segments),
        is_compaction(seg, segments, compression, id),
        links(seg, outgoing, at, to, label, rel),
    ensures
        links(seg, !outgoing, to, at, label, rel),
{
    let lists = lists_of(directed(segments, outgoing), at);
    let g = gathered(segments, at, outgoing);
    let list = seg.spec_direction(outgoing).edges_of(at);
    lemma_lists_sorted(segments, at, outgoing);
    assert(consistent(g) && settled(g));
    lemma_fuse_is_selection(lists);
    assert(list == selection(g));
    lemma_selection(g);
    let t = choose|t: int|
        0 <= t < list.len() && (#[trigger] list[t]).other.id == to && list[t].label@ == label
            && list[t].rel == rel;
    assert(g.contains(list[t]));
    let p = choose|p: int| 0 <= p < g.len() && g[p] == list[t];
    let (i, j) = lemma_concat_item(lists, lists.len(), p);
    // the segment that holds the edge holds it in its other index too
    let part = segments[i];
    assert(lists[i] == part.spec_direction(outgoing).edges_of(at));
    assert(part.spec_direction(outgoing).edges_of(at)[j] == list[t]);
    assert(links(part, outgoing, at, to, label, rel));
    assert(mirrored(part));
    if outgoing {
        assert(links(part, true, at, to, label, rel) == links(part, false, to, at, label, rel));
    } else {
        assert(links(part, true, to, at, label, rel) == links(part, false, at, to, label, rel));
    }
    assert(links(part, !outgoing, to, at, label, rel));
    let back = part.spec_direction(!outgoing).edges_of(to);
    let r = choose|r: int|
        0 <= r < back.len() && (#[trigger] back[r]).other.id == at && back[r].label@ == label
            && back[r].rel == rel;
    lemma_gathered_holds(segments, i, to, !outgoing, r);
    // and the compaction keeps an edge to every neighbour
    let h = gathered(segments, to, !outgoing);
    let others = lists_of(directed(segments, !outgoing), to);
    let merged = seg.spec_direction(!outgoing).edges_of(to);
    lemma_lists_sorted(segments, to, !outgoing);
    assert(consistent(h) && settled(h));
    lemma_fuse_is_selection(others);
    assert(merged == selection(h));
    lemma_selection(h);
    let q = choose|q: int| 0 <= q < h.len() && h[q] == back[r];
    assert(leads_to(selection(h), h[q].other.id));
    let w = choose|w: int| 0 <= w < merged.len() && (#[trigger] merged[w]).other.id == at;
    assert(h.contains(merged[w]));
    let x = choose|x: int| 0 <= x < h.len() && h[x] == merged[w];
    assert(h[x].other.id == h[q].other.id);
    assert(h[x].label@ == h[q].label@ && h[x].rel == h[q].rel);
    assert(merged[w].other.id == at && merged[w].label@ == label && merged[w].rel == rel);
}

/// Compaction keeps the two indices alike. Where the indices of every
/// segment hold the same edges, where sort keys and neighbours go one to one
/// at every node, and where the segments hold one label and the same flags
/// for the edges between two nodes, the indices of the compaction hold the
/// same edges.
pub proof fn law_compaction_keeps_mirror(
    segments: Seq<Segment>,
    seg: Segment,
    compression: Compression,
    id: Seq<char>,
)
    requires
        segments_wf(segments),
        all_mirrored(segments),
        agreeing(segments),
        is_compaction(seg, segments, compression, id),
    ensures
        mirrored(seg),
{
    assert forall|u: NodeID, v: NodeID, label: Seq<char>, rel: RelFlags|
        #![trigger links(seg, true, u, v, label, rel)]
        #![trigger links(seg, false, v, u, label, rel)]
        links(seg, true, u, v, label, rel) == links(seg, false, v, u, label, rel) by {
        if links(seg, true, u, v, label, rel) {
            lemma_compaction_link(segments, seg, compression, id, true, u, v, label, rel);
        }
        if links(seg, false, v, u, label, rel) {
            lemma_compaction_link(segments, seg, compression, id, false, v, u, label, rel);
        }
    }
}

/// The edges gathered at `at` lead to `to` exactly if some segment holds an
/// edge from `at` to `to`.
proof fn lemma_gathered_leads(segments: Seq<Segment>, outgoing: bool, at: NodeID, to: NodeID)
    ensures
        leads_to(gathered(segments, at, outgoing), to) <==> exists|i: int|
            0 <= i < segments.len() && leads_to(
                (#[trigger] segments[i]).spec_direction(outgoing).edges_of(at),
                to,
            ),
{
    let lists = lists_of(directed(segments, outgoing), at);
    let g = gathered(segments, at, outgoing);
    if leads_to(g, to) {
        let p = choose|p: int| 0 <= p < g.len() && (#[trigger] g[p]).other.id == to;
        let (i, j) = lemma_concat_item(lists, lists.len(), p);
        let list = segments[i].spec_direction(outgoing).edges_of(at);
        assert(list[j].other.id == to);
        assert(leads_to(list, to));
    }
    if exists|i: int|
        0 <= i < segments.len() && leads_to(
            (#[trigger] segments[i]).spec_direction(outgoing).edges_of(at),
            to,
        ) {
        let i = choose|i: int|
            0 <= i < segments.len() && leads_to(
                (#[trigger] segments[i]).spec_direction(outgoing).edges_of(at),
                to,
            );
        let list = segments[i].spec_direction(outgoing).edges_of(at);
        let t = choose|t: int| 0 <= t < list.len() && (#[trigger] list[t]).other.id == to;
        lemma_gathered_holds(segments, i, at, outgoing, t);
        let p = choose|p: int| 0 <= p < g.len() && g[p] == list[t];
        assert(g[p].other.id == to);
    }
}

/// Indices that hold the same edges link the same nodes.
pub proof fn lemma_mirrored_linked(seg: Segment)
    requires
        mirrored(seg),
    ensures
        linked(seg),
{
    assert forall|u: NodeID, v: NodeID|
        #![trigger reaches(seg, true, u, v)]
        #![trigger reaches(seg, false, v, u)]
        reaches(seg, true, u, v) == reaches(seg, false, v, u) by {
        let out = seg.spec_direction(true).edges_of(u);
        let back = seg.spec_direction(false).edges_of(v);
        if leads_to(out, v) {
            let t = choose|t: int| 0 <= t < out.len() && (#[trigger] out[t]).other.id == v;
            assert(links(seg, true, u, v, out[t].label@, out[t].rel));
            assert(links(seg, false, v, u, out[t].label@, out[t].rel));
            let r = choose|r: int|
                0 <= r < back.len() && (#[trigger] back[r]).other.id == u && back[r].label@
                    == out[t].label@ && back[r].rel == out[t].rel;
            assert(back[r].other.id == u);
        }
        if leads_to(back, u) {
            let t = choose|t: int| 0 <= t < back.len() && (#[trigger] back[t]).other.id == u;
            assert(links(seg, false, v, u, back[t].label@, back[t].rel));
            assert(links(seg, true, u, v, back[t].label@, back[t].rel));
            let r = choose|r: int|
                0 <= r < out.len() && (#[trigger] out[r]).other.id == v && out[r].label@
                    == back[t].label@ && out[r].rel == back[t].rel;
            assert(out[r].other.id == v);
        }
    }
}

/// Segments whose indices hold the same edges link the same nodes.
pub proof fn lemma_all_mirrored_linked(segments: Seq<Segment>)
    requires
        all_mirrored(segments),
    ensures
        all_linked(segments),
{
    assert forall|i: int| 0 <= i < segments.len() implies linked(#[trigger] segments[i]) by {
        lemma_mirrored_linked(segments[i]);
    }
}

/// Segments whose indices link the same nodes, put behind one another, are
/// segments whose indices link the same nodes.
pub proof fn law_union_keeps_links(a: Seq<Segment>, b: Seq<Segment>)
    requires
        all_linked(a),
        all_linked(b),
    ensures
        all_linked(a + b),
{
    assert forall|i: int| 0 <= i < (a + b).len() implies linked(#[trigger] (a + b)[i]) by {
        if i < a.len() {
            assert((a + b)[i] == a[i]);
        } else {
            assert((a + b)[i] == b[i - a.len()]);
        }
    }
}

/// What the selection from the edges gathered at a node leads to is what
/// some segment leads to from there.
proof fn lemma_selection_leads(segments: Seq<Segment>, outgoing: bool, at: NodeID, to: NodeID)
    ensures
        leads_to(selection(gathered(segments, at, outgoing)), to) <==> exists|i: int|
            0 <= i < segments.len() && reaches(#[trigger] segments[i], outgoing, at, to),
{
    let g = gathered(segments, at, outgoing);
    lemma_selection(g);
    lemma_gathered_leads(segments, outgoing, at, to);
    if leads_to(selection(g), to) {
        let t = choose|t: int|
            0 <= t < selection(g).len() && (#[trigger] selection(g)[t]).other.id == to;
        assert(g.contains(selection(g)[t]));
        let p = choose|p: int| 0 <= p < g.len() && g[p] == selection(g)[t];
        assert(g[p].other.id == to);
        assert(leads_to(g, to));
    }
    if leads_to(g, to) {
        let p = choose|p: int| 0 <= p < g.len() && (#[trigger] g[p]).other.id == to;
        assert(leads_to(selection(g), g[p].other.id));
    }
    if exists|i: int| 0 <= i < segments.len() && reaches(#[trigger] segments[i], outgoing, at, to) {
        let i = choose|i: int|
            0 <= i < segments.len() && reaches(#[trigger] segments[i], outgoing, at, to);
        assert(leads_to(segments[i].spec_direction(outgoing).edges_of(at), to));
    }
    if leads_to(g, to) {
        let i = choose|i: int|
            0 <= i < segments.len() && leads_to(
                (#[trigger] segments[i]).spec_direction(outgoing).edges_of(at),
                to,
            );
        assert(reaches(segments[i], outgoing, at, to));
    }
}

/// Both directions of segments whose indices link the same nodes select
/// edges between the same nodes.
proof fn lemma_selections_linked(segments: Seq<Segment>, u: NodeID, v: NodeID)
    requires
        all_linked(segments),
    ensures
        leads_to(selection(gathered(segments, u, true)), v) == leads_to(
            selection(gathered(segments, v, false)),
            u,
        ),
{
    lemma_selection_leads(segments, true, u, v);
    lemma_selection_leads(segments, false, v, u);
    if exists|i: int| 0 <= i < segments.len() && reaches(#[trigger] segments[i], true, u, v) {
        let i = choose|i: int| 0 <= i < segments.len() && reaches(#[trigger] segments[i], true, u, v);
        assert(linked(segments[i]));
        assert(reaches(segments[i], false, v, u));
    }
    if exists|i: int| 0 <= i < segments.len() && reaches(#[trigger] segments[i], false, v, u) {
        let i = choose|i: int| 0 <= i < segments.len() && reaches(#[trigger] segments[i], false, v, u);
        assert(linked(segments[i]));
        assert(reaches(segments[i], true, u, v));
    }
}

/// Where every node carries its id as the sort key, sort keys and
/// neighbours go one to one at every node.
pub proof fn lemma_self_keyed_one_to_one(segments: Seq<Segment>)
    requires
        all_self_keyed(segments),
    ensures
        one_to_one(segments),
{
    assert forall|node: NodeID, outgoing: bool|
        #![trigger gathered(segments, node, outgoing)]
        consistent(gathered(segments, node, outgoing)) by {
        law_self_keyed_consistent(segments, node, outgoing);
    }
}

/// Compaction keeps the two indices linking the same nodes, where sort keys
/// and neighbours go one to one at every node.
pub proof fn law_compaction_keeps_links(
    segments: Seq<Segment>,
    seg: Segment,
    compression: Compression,
    id: Seq<char>,
)
    requires
        segments_wf(segments),
        all_linked(segments),
        one_to_one(segments),
        is_compaction(seg, segments, compression, id),
    ensures
        linked(seg),
{
    assert forall|u: NodeID, v: NodeID|
        #![trigger reaches(seg, true, u, v)]
        #![trigger reaches(seg, false, v, u)]
        reaches(seg, true, u, v) == reaches(seg, false, v, u) by {
        lemma_lists_sorted(segments, u, true);
        lemma_lists_sorted(segments, v, false);
        assert(consistent(gathered(segments, u, true)));
        assert(consistent(gathered(segments, v, false)));
        lemma_fuse_is_selection(lists_of(directed(segments, true), u));
        lemma_fuse_is_selection(lists_of(directed(segments, false), v));
        lemma_selections_linked(segments, u, v);
    }
}

/// What the answers of a graph have from the two indices being linked: the
/// edges that leave `u` reach `v` exactly if the edges that come into `v`
/// leave `u`.
pub proof fn law_answers_mirror(g: Webgraph, u: NodeID, v: NodeID)
    requires
        all_linked(g.segs()),
    ensures
        leads_to(g.spec_adjacent(u, true), v) == leads_to(g.spec_adjacent(v, false), u),
{
    lemma_selections_linked(g.segs(), u, v);
}

} // verus!
