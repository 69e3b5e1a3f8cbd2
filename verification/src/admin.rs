//! Opening a graph from its parts, absorbing another graph, and compacting
//! the segments into one.

use crate::compact::{any_has_node, directed, is_compaction, lists_of, overlong, segments_wf};
use crate::edge::EdgeLimit;
use crate::fuse::total_len;
use crate::fusion::{fuse_edges, lemma_fuse_edges_item};
use crate::graph::{
    adjacency_resolves,
    gathered,
    distinct,
    named,
    resolves,
    segment_ids,
    GraphError,
    Meta,
    Webgraph,
};
use crate::id2node::Id2NodeDb;
use crate::laws::{
    all_self_keyed, consistent, law_compaction_keeps_answers, lemma_compaction_self_keyed,
    lemma_union_self_keyed,
};
use crate::mirror::{
    agreeing, all_linked, all_mirrored, law_compaction_keeps_links, law_compaction_keeps_mirror,
    law_union_keeps_links, law_union_keeps_mirror, lemma_self_keyed_one_to_one, one_to_one,
};
use crate::node::{fingerprint, NodeID};
use crate::outside::fresh_segment_id;
use crate::segment::{has_node, Adjacency, Compression, Segment};
use vstd::prelude::*;

verus! {

/// Whether the list names exactly the segments, in their order.
fn same_ids(meta: &Meta, segments: &Vec<Segment>) -> (ok: bool)
    ensures
        ok == (meta.ids() == segment_ids(segments@)),
{
    let n = segments.len();
    if meta.comitted_segments.len() != n {
        assert(meta.ids().len() != segment_ids(segments@).len());
        return false;
    }
    let mut i: usize = 0;
    while i < n
        invariant
            i <= n,
            n == segments.len(),
            n == meta.comitted_segments.len(),
            forall|j: int| 0 <= j < i ==> #[trigger] meta.ids()[j] == segment_ids(segments@)[j],
        decreases n - i,
    {
        if !segments[i].has_id(&meta.comitted_segments[i]) {
            assert(meta.ids()[i as int] != segment_ids(segments@)[i as int]);
            return false;
        }
        i += 1;
    }
    assert(meta.ids() =~= segment_ids(segments@));
    true
}

/// Whether no id occurs twice.
fn ids_distinct(meta: &Meta) -> (ok: bool)
    ensures
        ok == distinct(meta.ids()),
{
    let n = meta.comitted_segments.len();
    let mut j: usize = 0;
    while j < n
        invariant
            j <= n,
            n == meta.comitted_segments.len(),
            forall|a: int, b: int| 0 <= a < b < j ==> #[trigger] meta.ids()[a] != #[trigger] meta.ids()[b],
        decreases n - j,
    {
        let mut i: usize = 0;
        while i < j
            invariant
                i <= j < n,
                n == meta.comitted_segments.len(),
                forall|a: int| 0 <= a < i ==> #[trigger] meta.ids()[a] != meta.ids()[j as int],
            decreases j - i,
        {
            if meta.comitted_segments[i] == meta.comitted_segments[j] {
                assert(meta.ids()[i as int] == meta.ids()[j as int]);
                return false;
            }
            i += 1;
        }
        j += 1;
    }
    true
}

/// Whether every node of the index, and every neighbour in the lists, has a
/// name in `db`.
fn adjacency_names(adj: &Adjacency, db: &Id2NodeDb) -> (ok: bool)
    requires
        adj.wf(),
        db.wf(),
    ensures
        ok == adjacency_resolves(*adj, db@),
{
    let nodes = adj.nodes();
    let n = nodes.len();
    proof {
        adj.lemma_index();
    }
    let mut t: usize = 0;
    while t < n
        invariant
            t <= n,
            n == nodes.len(),
            nodes@ == adj.index(),
            adj.wf(),
            db.wf(),
            forall|u: int| 0 <= u < t ==> db@.dom().contains((#[trigger] nodes@[u]).node),
            forall|u: int, j: int|
                0 <= u < t && 0 <= j < adj.list_at(nodes@[u]).len() ==> db@.dom().contains(
                    (#[trigger] adj.list_at(nodes@[u])[j]).other.id,
                ),
        decreases n - t,
    {
        let e = nodes[t];
        proof {
            adj.lemma_index();
            assert(adj.index()[t as int] == e);
            assert(has_node(adj.index(), e.node));
        }
        if !db.contains(&e.node) {
            return false;
        }
        let list = adj.load(&e, &EdgeLimit::Unlimited);
        assert(list@ =~= adj.list_at(e));
        let m = list.len();
        let mut j: usize = 0;
        while j < m
            invariant
                j <= m,
                m == list.len(),
                list@ == adj.list_at(e),
                adj.edges_of(e.node) == adj.list_at(e),
                db.wf(),
                forall|i: int| 0 <= i < j ==> db@.dom().contains((#[trigger] list@[i]).other.id),
            decreases m - j,
        {
            if !db.contains(&list[j].other.id) {
                assert(!db@.dom().contains(adj.edges_of(e.node)[j as int].other.id));
                return false;
            }
            j += 1;
        }
        t += 1;
    }
    proof {
        adj.lemma_index();
        assert forall|node: NodeID| #[trigger] has_node(adj.index(), node) implies db@.dom().contains(
            node,
        ) by {
            let u = choose|u: int| 0 <= u < adj.index().len() && (#[trigger] adj.index()[u]).node == node;
            assert(db@.dom().contains(nodes@[u].node));
        }
        assert forall|node: NodeID, j: int| 0 <= j < adj.edges_of(node).len() implies db@.dom().contains(
            (#[trigger] adj.edges_of(node)[j]).other.id,
        ) by {
            if has_node(adj.index(), node) {
                let u = choose|u: int|
                    0 <= u < adj.index().len() && (#[trigger] adj.index()[u]).node == node;
                assert(adj.edges_of(nodes@[u].node) == adj.list_at(nodes@[u]));
                assert(db@.dom().contains(adj.list_at(nodes@[u])[j].other.id));
            }
        }
    }
    true
}

/// Whether every node that an edge of `segments` names has a name in `db`.
fn segments_resolve(segments: &Vec<Segment>, db: &Id2NodeDb) -> (ok: bool)
    requires
        segments_wf(segments@),
        db.wf(),
    ensures
        ok == resolves(segments@, db@),
{
    let k = segments.len();
    let mut i: usize = 0;
    while i < k
        invariant
            i <= k,
            k == segments.len(),
            segments_wf(segments@),
            db.wf(),
            forall|a: int, outgoing: bool|
                0 <= a < i ==> adjacency_resolves(
                    #[trigger] directed(segments@, outgoing)[a],
                    db@,
                ),
        decreases k - i,
    {
        proof {
            segments@[i as int].lemma_wf();
        }
        if !adjacency_names(segments[i].adjacency(true), db) {
            assert(!adjacency_resolves(directed(segments@, true)[i as int], db@));
            return false;
        }
        if !adjacency_names(segments[i].adjacency(false), db) {
            assert(!adjacency_resolves(directed(segments@, false)[i as int], db@));
            return false;
        }
        proof {
            assert forall|a: int, outgoing: bool| 0 <= a < i + 1 implies adjacency_resolves(
                #[trigger] directed(segments@, outgoing)[a],
                db@,
            ) by {
                if a == i {
                    if outgoing {
                        assert(directed(segments@, true)[a] == segments@[a].spec_direction(true));
                    } else {
                        assert(directed(segments@, false)[a] == segments@[a].spec_direction(false));
                    }
                }
            }
        }
        i += 1;
    }
    true
}

/// Whether every node stands under its own fingerprint.
fn names_ok(db: &Id2NodeDb) -> (ok: bool)
    requires
        db.wf(),
    ensures
        ok == named(db@),
{
    let rows = db.iter();
    let n = rows.len();
    let mut t: usize = 0;
    while t < n
        invariant
            t <= n,
            n == rows.len(),
            forall|u: int|
                0 <= u < n ==> db@.dom().contains((#[trigger] rows[u]).0) && db@[rows[u].0]
                    == rows[u].1@,
            forall|u: int| 0 <= u < t ==> (#[trigger] rows[u]).1.spec_id() == rows[u].0,
        decreases n - t,
    {
        let id = rows[t].1.id();
        if id.0 != rows[t].0.0 {
            assert(db@.dom().contains(rows[t as int].0));
            return false;
        }
        t += 1;
    }
    proof {
        assert forall|id: NodeID| #[trigger] db@.dom().contains(id) implies NodeID(
            fingerprint(vstd::utf8::encode_utf8(db@[id])),
        ) == id by {
            let u = choose|u: int| 0 <= u < rows.len() && (#[trigger] rows[u]).0 == id;
            assert(rows[u].1.spec_id() == rows[u].0);
        }
    }
    true
}

/// Some segment id of `a` is a segment id of `b`.
pub open spec fn ids_collide(a: Seq<Seq<char>>, b: Seq<Seq<char>>) -> bool {
    exists|i: int, j: int| 0 <= i < a.len() && 0 <= j < b.len() && #[trigger] a[i] == #[trigger] b[j]
}

/// Whether some id of `a` is an id of `b`.
fn collide(a: &Meta, b: &Meta) -> (res: bool)
    ensures
        res == ids_collide(a.ids(), b.ids()),
{
    let n = a.comitted_segments.len();
    let m = b.comitted_segments.len();
    let mut i: usize = 0;
    while i < n
        invariant
            i <= n,
            n == a.comitted_segments.len(),
            m == b.comitted_segments.len(),
            forall|x: int, y: int|
                0 <= x < i && 0 <= y < m ==> #[trigger] a.ids()[x] != #[trigger] b.ids()[y],
        decreases n - i,
    {
        let mut j: usize = 0;
        while j < m
            invariant
                j <= m,
                i < n,
                n == a.comitted_segments.len(),
                m == b.comitted_segments.len(),
                forall|y: int| 0 <= y < j ==> a.ids()[i as int] != #[trigger] b.ids()[y],
            decreases m - j,
        {
            if a.comitted_segments[i] == b.comitted_segments[j] {
                assert(a.ids()[i as int] == b.ids()[j as int]);
                return true;
            }
            j += 1;
        }
        i += 1;
    }
    false
}

impl Webgraph {
    /// The graph of the committed segments `segments` and the nodes `id2node`.
    ///
    /// It is refused where the list `meta` does not name exactly the
    /// segments, where a segment id occurs twice, and where an edge names a
    /// node that `id2node` lacks or holds under another id.
    pub fn open(meta: Meta, segments: Vec<Segment>, id2node: Id2NodeDb) -> (res: Result<
        Webgraph,
        GraphError,
    >)
        requires
            segments_wf(segments@),
            id2node.wf(),
        ensures
            res matches Ok(g) ==> g.wf() && g.segs() == segments@ && g.names() == id2node@
                && g.ids() == meta.ids(),
            res matches Err(e) ==> e == (if meta.ids() != segment_ids(segments@) {
                GraphError::SegmentMismatch
            } else if !distinct(meta.ids()) {
                GraphError::DuplicateSegment
            } else {
                GraphError::UnknownNode
            }),
            res is Ok <==> meta.ids() == segment_ids(segments@) && distinct(meta.ids()) && resolves(
                segments@,
                id2node@,
            ) && named(id2node@),
    {
        if !same_ids(&meta, &segments) {
            return Err(GraphError::SegmentMismatch);
        }
        if !ids_distinct(&meta) {
            return Err(GraphError::DuplicateSegment);
        }
        if !segments_resolve(&segments, &id2node) {
            return Err(GraphError::UnknownNode);
        }
        if !names_ok(&id2node) {
            return Err(GraphError::UnknownNode);
        }
        Ok(Webgraph { segments, id2node, meta })
    }

    /// Takes the graph apart: the list of committed segments, the segments,
    /// and the nodes.
    pub fn into_parts(self) -> (parts: (Meta, Vec<Segment>, Id2NodeDb))
        ensures
            parts.0.ids() == self.ids(),
            parts.1@ == self.segs(),
            parts.2@ == self.names(),
            self.wf() ==> segments_wf(parts.1@) && parts.2.wf(),
    {
        (self.meta, self.segments, self.id2node)
    }

    /// Absorbs the graph `other`: its segments come behind the segments of
    /// `self`, and its nodes join the nodes of `self`. Where both graphs hold
    /// a segment of one id nothing is changed.
    pub fn merge(&mut self, other: Webgraph) -> (res: Result<(), GraphError>)
        requires
            old(self).wf(),
            other.wf(),
        ensures
            res is Err <==> ids_collide(old(self).ids(), other.ids()),
            res matches Err(e) ==> e == GraphError::DuplicateSegment && final(self).segs() == old(self).segs() && final(self).names() == old(self).names() && final(self).ids() == old(self).ids(),
            res is Ok ==> final(self).wf() && final(self).segs() == old(self).segs() + other.segs()
                && final(self).names() == old(self).names().union_prefer_right(other.names())
                && final(self).ids() == old(self).ids() + other.ids(),
            res is Ok && all_mirrored(old(self).segs()) && all_mirrored(other.segs()) ==> all_mirrored(
                final(self).segs(),
            ),
            res is Ok && all_self_keyed(old(self).segs()) && all_self_keyed(other.segs())
                ==> all_self_keyed(final(self).segs()),
            res is Ok && all_linked(old(self).segs()) && all_linked(other.segs()) ==> all_linked(
                final(self).segs(),
            ),
    {
        if collide(&self.meta, &other.meta) {
            return Err(GraphError::DuplicateSegment);
        }
        let ghost mine = old(self).segs();
        let ghost theirs = other.segs();
        let ghost my_names = old(self).names();
        let ghost their_names = other.names();
        let Webgraph { segments, id2node, meta } = other;
        let mut segments = segments;
        let mut ids = meta.comitted_segments;
        let ghost my_ids = self.meta.ids();
        let ghost their_ids = meta.ids();
        self.id2node.merge(id2node);
        self.segments.append(&mut segments);
        self.meta.comitted_segments.append(&mut ids);
        proof {
            let all = self.segs();
            let names = self.names();
            assert(self.meta.ids() =~= my_ids + their_ids);
            assert(self.ids() =~= segment_ids(all));
            assert(distinct(self.ids())) by {
                assert forall|i: int, j: int| 0 <= i < j < self.ids().len() implies #[trigger] self.ids()[i]
                    != #[trigger] self.ids()[j] by {
                    if j < my_ids.len() {
                        assert(my_ids[i] != my_ids[j]);
                    } else if i >= my_ids.len() {
                        assert(0 <= i - my_ids.len() < j - my_ids.len() < their_ids.len());
                        assert(their_ids[i - my_ids.len()] != their_ids[j - my_ids.len()]);
                    } else {
                        assert(my_ids[i] != their_ids[j - my_ids.len()]);
                    }
                }
            }
            assert(segments_wf(all)) by {
                assert forall|i: int| 0 <= i < all.len() implies (#[trigger] all[i]).wf() by {
                    if i < mine.len() {
                        assert(all[i] == mine[i]);
                    } else {
                        assert(all[i] == theirs[i - mine.len()]);
                    }
                }
            }
            assert(resolves(all, names)) by {
                assert forall|i: int, outgoing: bool| 0 <= i < all.len() implies adjacency_resolves(
                    #[trigger] directed(all, outgoing)[i],
                    names,
                ) by {
                    if i < mine.len() {
                        assert(all[i] == mine[i]);
                        assert(adjacency_resolves(directed(mine, outgoing)[i], my_names));
                    } else {
                        assert(all[i] == theirs[i - mine.len()]);
                        assert(adjacency_resolves(
                            directed(theirs, outgoing)[i - mine.len()],
                            their_names,
                        ));
                    }
                }
            }
            assert(named(names));
            if all_mirrored(mine) && all_mirrored(theirs) {
                law_union_keeps_mirror(mine, theirs);
            }
            if all_self_keyed(mine) && all_self_keyed(theirs) {
                lemma_union_self_keyed(mine, theirs);
            }
            if all_linked(mine) && all_linked(theirs) {
                law_union_keeps_links(mine, theirs);
            }
        }
        Ok(())
    }

    /// Replaces the segments by their compaction, under the segment id `id`.
    /// At every node the edges of one sort key become one edge, so the
    /// answers stay as they are where neighbours and sort keys go one to one.
    ///
    /// It fails, and changes nothing, where a fused adjacency list has more
    /// edges than an `EdgeRange` can count.
    pub fn merge_all_segments_as(&mut self, compression: Compression, id: String) -> (res: Result<
        (),
        GraphError,
    >)
        requires
            old(self).wf(),
        ensures
            final(self).names() == old(self).names(),
            res is Err <==> overlong(old(self).segs()),
            res matches Err(e) ==> e == GraphError::ListTooLong && final(self).segs() == old(self).segs() && final(self).ids() == old(self).ids(),
            res is Ok ==> final(self).wf() && final(self).segs().len() == 1 && is_compaction(
                final(self).segs()[0],
                old(self).segs(),
                compression,
                id@,
            ) && final(self).ids() == seq![id@],
            res is Ok ==> forall|node: NodeID, outgoing: bool|
                consistent(gathered(old(self).segs(), node, outgoing))
                    ==> #[trigger] final(self).spec_adjacent(node, outgoing)
                    == old(self).spec_adjacent(node, outgoing),
            res is Ok && all_self_keyed(old(self).segs()) ==> all_self_keyed(final(self).segs()),
            res is Ok && all_mirrored(old(self).segs()) && agreeing(old(self).segs()) ==> all_mirrored(
                final(self).segs(),
            ),
            res is Ok && all_linked(old(self).segs()) && (one_to_one(old(self).segs())
                || all_self_keyed(old(self).segs())) ==> all_linked(final(self).segs()),
    {
        let ghost before = self.segs();
        let ghost names = self.names();
        let seg = match Segment::merge(&self.segments, compression, id.clone()) {
            Ok(seg) => seg,
            Err(_) => {
                return Err(GraphError::ListTooLong);
            },
        };
        proof {
            lemma_compaction_resolves(before, seg, compression, id@, names);
        }
        let mut segments: Vec<Segment> = Vec::new();
        segments.push(seg);
        let mut ids: Vec<String> = Vec::new();
        ids.push(id);
        self.segments = segments;
        self.meta.comitted_segments = ids;
        proof {
            assert(self.ids() =~= seq![id@]);
            assert(self.ids() =~= segment_ids(self.segs()));
            assert(resolves(self.segs(), names)) by {
                assert forall|i: int, outgoing: bool|
                    0 <= i < self.segs().len() implies adjacency_resolves(
                    #[trigger] directed(self.segs(), outgoing)[i],
                    names,
                ) by {
                    assert(directed(self.segs(), outgoing)[0] == seg.spec_direction(outgoing));
                }
            }
            let after = self.segs();
            assert(after =~= seq![after[0]]);
            assert forall|node: NodeID, outgoing: bool|
                consistent(gathered(before, node, outgoing)) implies #[trigger] self.spec_adjacent(
                node,
                outgoing,
            ) == old(self).spec_adjacent(node, outgoing) by {
                law_compaction_keeps_answers(before, after[0], compression, id@, node, outgoing);
            }
            if all_self_keyed(before) {
                lemma_compaction_self_keyed(before, after[0], compression, id@);
            }
            if all_mirrored(before) && agreeing(before) {
                law_compaction_keeps_mirror(before, after[0], compression, id@);
            }
            if all_self_keyed(before) {
                lemma_self_keyed_one_to_one(before);
            }
            if all_linked(before) && one_to_one(before) {
                law_compaction_keeps_links(before, after[0], compression, id@);
            }
        }
        Ok(())
    }

    /// Replaces the segments by their compaction, under a fresh segment id.
    /// At every node the edges of one sort key become one edge, so the
    /// answers stay as they are where neighbours and sort keys go one to one.
    ///
    /// It fails, and changes nothing, where a fused adjacency list has more
    /// edges than an `EdgeRange` can count.
    pub fn merge_all_segments(&mut self, compression: Compression) -> (res: Result<(), GraphError>)
        requires
            old(self).wf(),
        ensures
            final(self).names() == old(self).names(),
            res is Err <==> overlong(old(self).segs()),
            res matches Err(e) ==> e == GraphError::ListTooLong && final(self).segs() == old(self).segs() && final(self).ids() == old(self).ids(),
            res is Ok ==> final(self).wf() && final(self).segs().len() == 1 && is_compaction(
                final(self).segs()[0],
                old(self).segs(),
                compression,
                final(self).segs()[0].spec_id(),
            ) && final(self).ids() == seq![final(self).segs()[0].spec_id()],
            res is Ok ==> forall|node: NodeID, outgoing: bool|
                consistent(gathered(old(self).segs(), node, outgoing))
                    ==> #[trigger] final(self).spec_adjacent(node, outgoing)
                    == old(self).spec_adjacent(node, outgoing),
            res is Ok && all_self_keyed(old(self).segs()) ==> all_self_keyed(final(self).segs()),
            res is Ok && all_mirrored(old(self).segs()) && agreeing(old(self).segs()) ==> all_mirrored(
                final(self).segs(),
            ),
            res is Ok && all_linked(old(self).segs()) && (one_to_one(old(self).segs())
                || all_self_keyed(old(self).segs())) ==> all_linked(final(self).segs()),
    {
        let id = fresh_segment_id();
        self.merge_all_segments_as(compression, id)
    }

    /// Prepares every segment and the map from node ids to nodes for reading.
    /// In memory nothing is to prepare: the graph stays as it is, and a
    /// well-formed graph stays well formed, so that every query answers as
    /// before.
    pub fn optimize_read(&mut self)
        ensures
            final(self).segs() == old(self).segs(),
            final(self).names() == old(self).names(),
            final(self).ids() == old(self).ids(),
            final(self).spec_num_nodes() == old(self).spec_num_nodes(),
            old(self).wf() ==> final(self).wf(),
    {
        let k = self.segments.len();
        let mut i: usize = 0;
        while i < k
            invariant
                i <= k,
                k == self.segments.len(),
                self.segments@ == old(self).segments@,
                self.id2node == old(self).id2node,
                self.meta == old(self).meta,
            decreases k - i,
        {
            let ghost before = self.segments@;
            self.segments[i].optimize_read();
            assert(self.segments@ =~= before);
            i += 1;
        }
        self.id2node.optimize_read();
    }
}

/// The compaction of segments names no node that the segments do not name.
pub proof fn lemma_compaction_resolves(
    segments: Seq<Segment>,
    seg: Segment,
    compression: Compression,
    id: Seq<char>,
    names: Map<NodeID, Seq<char>>,
)
    requires
        is_compaction(seg, segments, compression, id),
        resolves(segments, names),
    ensures
        adjacency_resolves(seg.spec_direction(true), names),
        adjacency_resolves(seg.spec_direction(false), names),
{
    assert forall|outgoing: bool| adjacency_resolves(#[trigger] seg.spec_direction(outgoing), names) by {
        let adj = seg.spec_direction(outgoing);
        let inputs = directed(segments, outgoing);
        assert forall|node: NodeID| #[trigger] has_node(adj.index(), node) implies names.dom().contains(
            node,
        ) by {
            assert(any_has_node(inputs, node));
            let i = choose|i: int|
                0 <= i < inputs.len() && has_node((#[trigger] inputs[i]).index(), node);
            assert(adjacency_resolves(directed(segments, outgoing)[i], names));
        }
        assert forall|node: NodeID, j: int| 0 <= j < adj.edges_of(node).len() implies names.dom().contains(
            (#[trigger] adj.edges_of(node)[j]).other.id,
        ) by {
            let lists = lists_of(inputs, node);
            assert(adj.edges_of(node) == fuse_edges(lists));
            let at = lemma_fuse_edges_item(lists, total_len(lists), j);
            assert(adjacency_resolves(directed(segments, outgoing)[at.0], names));
            assert(lists[at.0][at.1] == inputs[at.0].edges_of(node)[at.1]);
        }
    }
}

} // verus!
