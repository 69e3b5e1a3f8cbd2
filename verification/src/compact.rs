//! Compaction of one direction: the adjacency indices of several segments are
//! merged by node id, and the adjacency lists of each node are fused.

use crate::edge::{EdgeLimit, PageEntry, StoredEdge};
use crate::fusion::{fuse_edge_lists, fuse_edges, lemma_fuse_edges_sorted, lemma_fuse_edges_unfold};
use crate::fuse::{
    all_sorted,
    fuse,
    fuse_all,
    lemma_fuse_sorted,
    lemma_group_has,
    lemma_group_item,
    sorted,
    strictly_sorted,
};
use crate::kway::{
    drained,
    group,
    has_live,
    is_least_head,
    key_le,
    key_lt,
    least_key,
    lemma_run_len_bounds,
    run_len,
    vec_views,
    MergeKey,
};
use crate::merge::{tagged, MergeIter, MergeNode, MergeSegmentOrd};
use crate::node::NodeID;
use crate::segment::{
    csr_edges_of,
    csr_wf,
    entry_list,
    entry_ok,
    has_node,
    lemma_csr_edges_at,
    Adjacency,
    Compression,
    EdgeRange,
    Segment,
    StoreError,
};
use vstd::prelude::*;

verus! {

/// The adjacency lists that the inputs hold for the node `id`, one per input.
pub open spec fn lists_of(inputs: Seq<Adjacency>, id: NodeID) -> Seq<Seq<StoredEdge<String>>> {
    Seq::new(inputs.len(), |i: int| inputs[i].edges_of(id))
}

/// Every input is well formed.
pub open spec fn all_wf(inputs: Seq<Adjacency>) -> bool {
    forall|i: int| 0 <= i < inputs.len() ==> (#[trigger] inputs[i]).wf()
}

/// Some input has the node `id` in its index.
pub open spec fn any_has_node(inputs: Seq<Adjacency>, id: NodeID) -> bool {
    exists|i: int| 0 <= i < inputs.len() && has_node((#[trigger] inputs[i]).index(), id)
}

/// What is left of the indices when input `i` has given up its first `cur[i]`
/// entries.
pub open spec fn left_of(inputs: Seq<Adjacency>, cur: Seq<int>) -> Seq<
    Seq<MergeNode<MergeSegmentOrd>>,
> {
    Seq::new(inputs.len(), |i: int| tagged(inputs[i].index(), i as usize).skip(cur[i]))
}

/// There is one cursor for each input, and it lies within the input's index.
pub open spec fn cursors_ok(inputs: Seq<Adjacency>, cur: Seq<int>) -> bool {
    &&& cur.len() == inputs.len()
    &&& forall|i: int| 0 <= i < inputs.len() ==> 0 <= #[trigger] cur[i] <= inputs[i].index().len()
}

/// Every entry that an input has given up carries a node id below `x`.
pub open spec fn given_below(inputs: Seq<Adjacency>, cur: Seq<int>, x: u64) -> bool {
    forall|i: int, j: int|
        0 <= i < inputs.len() && 0 <= j < cur[i] ==> (#[trigger] inputs[i].index()[j]).node.0 < x
}

/// Every entry that an input has given up is in `nodes`.
pub open spec fn given_in(inputs: Seq<Adjacency>, cur: Seq<int>, nodes: Seq<MergeNode>) -> bool {
    forall|i: int, j: int|
        0 <= i < inputs.len() && 0 <= j < cur[i] ==> has_node(
            nodes,
            (#[trigger] inputs[i].index()[j]).node,
        )
}

/// Every node of `nodes` lies below every entry that the inputs still hold.
pub open spec fn below_left(inputs: Seq<Adjacency>, cur: Seq<int>, nodes: Seq<MergeNode>) -> bool {
    forall|t: int, i: int, j: int|
        0 <= t < nodes.len() && 0 <= i < inputs.len() && cur[i] <= j < inputs[i].index().len()
            ==> (#[trigger] nodes[t]).node.0 < (#[trigger] inputs[i].index()[j]).node.0
}

/// Every list of `nodes` is the fusion of the lists that the inputs hold for
/// its node, and its node is in some input's index.
pub open spec fn lists_fused(
    inputs: Seq<Adjacency>,
    nodes: Seq<MergeNode>,
    edges: Seq<StoredEdge<String>>,
) -> bool {
    forall|t: int|
        0 <= t < nodes.len() ==> entry_list(#[trigger] nodes[t], edges) == fuse_edges(
            lists_of(inputs, nodes[t].node),
        ) && any_has_node(inputs, nodes[t].node)
}

proof fn lemma_tagged_sorted(index: Seq<MergeNode>, ord: usize, c: int)
    requires
        strictly_sorted(index),
        0 <= c <= index.len(),
    ensures
        strictly_sorted(tagged(index, ord).skip(c)),
        sorted(tagged(index, ord).skip(c)),
{
    let list = tagged(index, ord).skip(c);
    assert forall|a: int, b: int| 0 <= a < b < list.len() implies key_lt(
        (#[trigger] list[a]).spec_key(),
        (#[trigger] list[b]).spec_key(),
    ) by {
        assert(key_lt(index[a + c].spec_key(), index[b + c].spec_key()));
    }
}

proof fn lemma_left_sorted(inputs: Seq<Adjacency>, cur: Seq<int>)
    requires
        all_wf(inputs),
        cursors_ok(inputs, cur),
    ensures
        all_sorted(left_of(inputs, cur)),
        forall|i: int| 0 <= i < inputs.len() ==> strictly_sorted(#[trigger] left_of(inputs, cur)[i]),
{
    assert forall|i: int| 0 <= i < inputs.len() implies sorted(#[trigger] left_of(inputs, cur)[i])
        && strictly_sorted(left_of(inputs, cur)[i]) by {
        inputs[i].lemma_index();
        lemma_tagged_sorted(inputs[i].index(), i as usize, cur[i]);
    }
}

/// In what is left of a strictly sorted index, the leading run of a key has
/// at most one entry, and no later entry carries the key.
proof fn lemma_run_of_strict(list: Seq<MergeNode<MergeSegmentOrd>>, m: (u64, u64))
    requires
        strictly_sorted(list),
        list.len() > 0 ==> key_le(m, list[0].spec_key()),
    ensures
        run_len(list, m) <= 1,
        run_len(list, m) == 1 <==> list.len() > 0 && list[0].spec_key() == m,
        forall|j: int| run_len(list, m) <= j < list.len() ==> key_lt(m, (#[trigger] list[j]).spec_key()),
{
    lemma_run_len_bounds(list, m);
    if run_len(list, m) >= 2 {
        assert(key_lt(list[0].spec_key(), list[1].spec_key()));
    }
    assert forall|j: int| run_len(list, m) <= j < list.len() implies key_lt(
        m,
        (#[trigger] list[j]).spec_key(),
    ) by {
        if j > 0 {
            assert(key_lt(list[0].spec_key(), list[j].spec_key()));
        }
    }
}

/// The adjacency lists of the node that the group `buf` is about, one per
/// input: the list behind the input's entry in `buf`, or an empty list where
/// the input has no entry there.
fn gather_lists(
    segments: &Vec<Segment>,
    outgoing: bool,
    buf: &Vec<MergeNode<MergeSegmentOrd>>,
    Ghost(cur): Ghost<Seq<int>>,
    Ghost(m): Ghost<(u64, u64)>,
) -> (lists: Vec<Vec<StoredEdge<String>>>)
    requires
        all_wf(directed(segments@, outgoing)),
        cursors_ok(directed(segments@, outgoing), cur),
        is_least_head(left_of(directed(segments@, outgoing), cur), m),
        buf@ == group(left_of(directed(segments@, outgoing), cur), m),
        given_below(directed(segments@, outgoing), cur, m.0),
    ensures
        vec_views(lists@) == lists_of(directed(segments@, outgoing), NodeID(m.0)),
{
    let ghost inputs = directed(segments@, outgoing);
    let k = segments.len();
    let ghost rem = left_of(inputs, cur);
    let ghost x = NodeID(m.0);
    let mut lists: Vec<Vec<StoredEdge<String>>> = Vec::new();
    let mut i: usize = 0;
    while i < k
        invariant
            i <= k,
            k == segments.len(),
            inputs == directed(segments@, outgoing),
            lists.len() == i,
            forall|a: int| 0 <= a < i ==> (#[trigger] lists@[a])@ == Seq::<StoredEdge<String>>::empty(),
        decreases k - i,
    {
        lists.push(Vec::new());
        i += 1;
    }
    let n = buf.len();
    let mut b: usize = 0;
    while b < n
        invariant
            b <= n,
            n == buf.len(),
            k == segments.len(),
            inputs == directed(segments@, outgoing),
            lists.len() == k,
            all_wf(inputs),
            cursors_ok(inputs, cur),
            rem == left_of(inputs, cur),
            x == NodeID(m.0),
            buf@ == group(rem, m),
            forall|a: int|
                0 <= a < k ==> (#[trigger] lists@[a])@ == Seq::<StoredEdge<String>>::empty()
                    || lists@[a]@ == inputs[a].edges_of(x),
            forall|c: int|
                0 <= c < b ==> (#[trigger] buf@[c]).ord.0 < k && lists@[buf@[c].ord.0 as int]@
                    == inputs[buf@[c].ord.0 as int].edges_of(x),
        decreases n - b,
    {
        let r = buf[b];
        let ghost at = lemma_group_item(rem, m, rem.len(), b as int);
        let ghost src = at.0;
        let ghost pos = cur[src] + at.1;
        proof {
            lemma_run_len_bounds(rem[src], m);
            inputs[src].lemma_index();
            assert(rem[src][at.1] == tagged(inputs[src].index(), src as usize)[pos]);
            assert(r.ord.0 == src);
            let e = inputs[src].index()[pos];
            assert(r == e.spec_with_ord(MergeSegmentOrd(src as usize)));
            assert(e.ord == ());
            assert(r.spec_with_ord(()) == e);
            assert(inputs[src].index()[pos].node == x);
        }
        let i = r.ord.as_usize();
        let entry = r.with_ord(());
        let list = segments[i].adjacency(outgoing).load(&entry, &EdgeLimit::Unlimited);
        assert(list@ =~= inputs[src].edges_of(x));
        let ghost before = lists@;
        lists[i] = list;
        proof {
            assert forall|c: int| 0 <= c < b + 1 implies (#[trigger] buf@[c]).ord.0 < k
                && lists@[buf@[c].ord.0 as int]@ == inputs[buf@[c].ord.0 as int].edges_of(x) by {
                if c < b && buf@[c].ord.0 != i {
                    assert(lists@[buf@[c].ord.0 as int] == before[buf@[c].ord.0 as int]);
                }
            }
            assert forall|a: int| 0 <= a < k implies (#[trigger] lists@[a])@ == Seq::<
                StoredEdge<String>,
            >::empty() || lists@[a]@ == inputs[a].edges_of(x) by {
                if a != i {
                    assert(lists@[a] == before[a]);
                }
            }
        }
        b += 1;
    }
    proof {
        lemma_left_sorted(inputs, cur);
        assert forall|a: int| 0 <= a < k implies (#[trigger] lists@[a])@ == inputs[a].edges_of(
            x,
        ) by {
            let list = rem[a];
            let index = inputs[a].index();
            inputs[a].lemma_index();
            lemma_run_of_strict(list, m);
            if list.len() > 0 && list[0].spec_key() == m {
                let c = lemma_group_has(rem, m, rem.len(), a, 0);
                assert(buf@[c] == list[0]);
                assert(list[0] == tagged(index, a as usize)[cur[a]]);
                assert(buf@[c].ord.0 == a);
            } else {
                if has_node(index, x) {
                    let j = choose|j: int| 0 <= j < index.len() && (#[trigger] index[j]).node == x;
                    if j < cur[a] {
                        assert(inputs[a].index()[j].node.0 < m.0);
                    } else {
                        assert(list[j - cur[a]] == tagged(index, a as usize)[j]);
                        assert(key_lt(m, list[j - cur[a]].spec_key()));
                    }
                }
                assert(!has_node(index, x));
            }
        }
        assert(vec_views(lists@) =~= lists_of(inputs, x));
    }
    lists
}

/// The state of a compaction between two groups: what was written so far is a
/// well-formed adjacency of all that the inputs have given up.
pub open spec fn compacting(
    inputs: Seq<Adjacency>,
    cur: Seq<int>,
    nodes: Seq<MergeNode>,
    edges: Seq<StoredEdge<String>>,
) -> bool {
    &&& cursors_ok(inputs, cur)
    &&& csr_wf(nodes, edges)
    &&& given_in(inputs, cur, nodes)
    &&& below_left(inputs, cur, nodes)
    &&& lists_fused(inputs, nodes, edges)
}

/// The cursors after the inputs have given up their entries for the key `m`.
pub open spec fn advanced(inputs: Seq<Adjacency>, cur: Seq<int>, m: (u64, u64)) -> Seq<int> {
    Seq::new(inputs.len(), |i: int| cur[i] + run_len(left_of(inputs, cur)[i], m))
}

proof fn lemma_advanced(inputs: Seq<Adjacency>, cur: Seq<int>, m: (u64, u64))
    requires
        all_wf(inputs),
        cursors_ok(inputs, cur),
        is_least_head(left_of(inputs, cur), m),
    ensures
        cursors_ok(inputs, advanced(inputs, cur, m)),
        left_of(inputs, advanced(inputs, cur, m)) == drained(left_of(inputs, cur), m),
{
    let rem = left_of(inputs, cur);
    let next = advanced(inputs, cur, m);
    assert forall|i: int| 0 <= i < inputs.len() implies 0 <= #[trigger] next[i]
        <= inputs[i].index().len() && left_of(inputs, next)[i] == drained(rem, m)[i] by {
        lemma_run_len_bounds(rem[i], m);
        assert(tagged(inputs[i].index(), i as usize).skip(cur[i]).skip(run_len(rem[i], m) as int)
            =~= tagged(inputs[i].index(), i as usize).skip(next[i]));
    }
    assert(left_of(inputs, next) =~= drained(rem, m));
}

/// Writing the fused list of the next node keeps the state of the compaction.
proof fn lemma_compacting_step(
    inputs: Seq<Adjacency>,
    cur: Seq<int>,
    nodes: Seq<MergeNode>,
    edges: Seq<StoredEdge<String>>,
    m: (u64, u64),
    entry: MergeNode,
    fused: Seq<StoredEdge<String>>,
)
    requires
        all_wf(inputs),
        compacting(inputs, cur, nodes, edges),
        is_least_head(left_of(inputs, cur), m),
        fused == fuse_edges(lists_of(inputs, NodeID(m.0))),
        entry.node == NodeID(m.0),
        entry.range.start == edges.len(),
        entry_ok(entry, (edges + fused).len()),
        entry.range.end == edges.len() + fused.len(),
    ensures
        compacting(inputs, advanced(inputs, cur, m), nodes.push(entry), edges + fused),
{
    let rem = left_of(inputs, cur);
    let next = advanced(inputs, cur, m);
    let nodes2 = nodes.push(entry);
    let edges2 = edges + fused;
    let x = NodeID(m.0);
    lemma_advanced(inputs, cur, m);
    lemma_left_sorted(inputs, cur);
    // some input has the node at its head
    let w = choose|w: int| 0 <= w < rem.len() && (#[trigger] rem[w]).len() > 0 && rem[w][0].spec_key() == m;
    assert(rem[w][0] == tagged(inputs[w].index(), w as usize)[cur[w]]);
    assert(inputs[w].index()[cur[w]].node == x);
    assert(has_node(inputs[w].index(), x));
    // the lists of the node are sorted, so their fusion is
    assert(all_sorted(lists_of(inputs, x))) by {
        assert forall|i: int| 0 <= i < inputs.len() implies sorted(
            #[trigger] lists_of(inputs, x)[i],
        ) by {
            inputs[i].lemma_edges_sorted(x);
        }
    }
    lemma_fuse_edges_sorted(lists_of(inputs, x));
    assert(entry_list(entry, edges2) =~= fused);
    assert(sorted(fused)) by {
        assert forall|a: int, b: int| 0 <= a < b < fused.len() implies key_le(
            (#[trigger] fused[a]).spec_key(),
            (#[trigger] fused[b]).spec_key(),
        ) by {
            assert(key_lt(fused[a].spec_key(), fused[b].spec_key()));
        }
    }
    assert forall|t: int| 0 <= t < nodes.len() implies entry_list(#[trigger] nodes[t], edges2)
        == entry_list(nodes[t], edges) by {
        assert(entry_ok(nodes[t], edges.len()));
        assert(entry_list(nodes[t], edges2) =~= entry_list(nodes[t], edges));
    }
    assert(strictly_sorted(nodes2)) by {
        assert forall|a: int, b: int| 0 <= a < b < nodes2.len() implies key_lt(
            (#[trigger] nodes2[a]).spec_key(),
            (#[trigger] nodes2[b]).spec_key(),
        ) by {
            if b == nodes.len() {
                assert(nodes[a].node.0 < inputs[w].index()[cur[w]].node.0);
            } else {
                assert(key_lt(nodes[a].spec_key(), nodes[b].spec_key()));
            }
        }
    }
    assert(csr_wf(nodes2, edges2)) by {
        assert forall|t: int| 0 <= t < nodes2.len() implies entry_ok(
            #[trigger] nodes2[t],
            edges2.len(),
        ) && sorted(entry_list(nodes2[t], edges2)) by {
            if t < nodes.len() {
                assert(entry_ok(nodes[t], edges.len()));
            }
        }
    }
    assert(lists_fused(inputs, nodes2, edges2)) by {
        assert forall|t: int| 0 <= t < nodes2.len() implies entry_list(
            #[trigger] nodes2[t],
            edges2,
        ) == fuse_edges(lists_of(inputs, nodes2[t].node)) && any_has_node(inputs, nodes2[t].node) by {
            if t < nodes.len() {
                assert(entry_list(nodes[t], edges2) == entry_list(nodes[t], edges));
            }
        }
    }
    assert(given_in(inputs, next, nodes2)) by {
        assert forall|i: int, j: int| 0 <= i < inputs.len() && 0 <= j < next[i] implies has_node(
            nodes2,
            (#[trigger] inputs[i].index()[j]).node,
        ) by {
            let id = inputs[i].index()[j].node;
            if j < cur[i] {
                assert(has_node(nodes, id));
                let t = choose|t: int| 0 <= t < nodes.len() && (#[trigger] nodes[t]).node == id;
                assert(nodes2[t].node == id);
            } else {
                lemma_run_len_bounds(rem[i], m);
                assert(rem[i][j - cur[i]] == tagged(inputs[i].index(), i as usize)[j]);
                assert(rem[i][j - cur[i]].spec_key() == m);
                assert(nodes2[nodes.len() as int].node == id);
            }
        }
    }
    assert(below_left(inputs, next, nodes2)) by {
        assert forall|t: int, i: int, j: int|
            0 <= t < nodes2.len() && 0 <= i < inputs.len() && next[i] <= j
                < inputs[i].index().len() implies (#[trigger] nodes2[t]).node.0 < (
        #[trigger] inputs[i].index()[j]).node.0 by {
            lemma_run_len_bounds(rem[i], m);
            if t < nodes.len() {
                assert(nodes[t].node.0 < inputs[i].index()[j].node.0);
            } else {
                assert(key_le(m, rem[i][0].spec_key()));
                lemma_run_of_strict(rem[i], m);
                assert(rem[i][j - cur[i]] == tagged(inputs[i].index(), i as usize)[j]);
                assert(key_lt(m, rem[i][j - cur[i]].spec_key()));
            }
        }
    }
}

/// What the finished compaction holds for every node.
proof fn lemma_compacting_done(
    inputs: Seq<Adjacency>,
    cur: Seq<int>,
    nodes: Seq<MergeNode>,
    edges: Seq<StoredEdge<String>>,
)
    requires
        all_wf(inputs),
        compacting(inputs, cur, nodes, edges),
        !has_live(left_of(inputs, cur)),
    ensures
        forall|id: NodeID| #[trigger] csr_edges_of(nodes, edges, id) == fuse_edges(lists_of(inputs, id)),
        forall|id: NodeID| #[trigger] has_node(nodes, id) == any_has_node(inputs, id),
        forall|id: NodeID| (#[trigger] fuse_edges(lists_of(inputs, id))).len() <= u32::MAX,
{
    let rem = left_of(inputs, cur);
    assert forall|id: NodeID|
        #[trigger] csr_edges_of(nodes, edges, id) == fuse_edges(lists_of(inputs, id)) && has_node(
            nodes,
            id,
        ) == any_has_node(inputs, id) && fuse_edges(lists_of(inputs, id)).len() <= u32::MAX by {
        if has_node(nodes, id) {
            let t = choose|t: int| 0 <= t < nodes.len() && (#[trigger] nodes[t]).node == id;
            lemma_csr_edges_at(nodes, edges, t);
            assert(entry_ok(nodes[t], edges.len()));
            assert(entry_list(nodes[t], edges) == fuse_edges(lists_of(inputs, nodes[t].node)));
        } else {
            let lists = lists_of(inputs, id);
            assert forall|i: int| 0 <= i < inputs.len() implies !has_node(
                (#[trigger] inputs[i]).index(),
                id,
            ) by {
                if has_node(inputs[i].index(), id) {
                    let j = choose|j: int|
                        0 <= j < inputs[i].index().len() && (#[trigger] inputs[i].index()[j]).node
                            == id;
                    assert(rem[i].len() == 0);
                    assert(j < cur[i]);
                    assert(has_node(nodes, inputs[i].index()[j].node));
                }
            }
            assert forall|i: int| 0 <= i < lists.len() implies (#[trigger] lists[i]).len() == 0 by {
                inputs[i].lemma_index();
                assert(!has_node(inputs[i].index(), id));
            }
            lemma_fuse_edges_unfold(lists);
        }
    }
    assert forall|id: NodeID| #[trigger] has_node(nodes, id) == any_has_node(inputs, id) by {
        assert(csr_edges_of(nodes, edges, id) == fuse_edges(lists_of(inputs, id)));
    }
    assert forall|id: NodeID| (#[trigger] fuse_edges(lists_of(inputs, id))).len() <= u32::MAX by {
        assert(csr_edges_of(nodes, edges, id) == fuse_edges(lists_of(inputs, id)));
    }
}

/// Compacts one direction of several segments into one adjacency.
///
/// The result has a node where some input has it, and holds for every node
/// the fusion of the lists that the inputs hold for it, the inputs taken in
/// their order. It fails where a fused list has more edges than an
/// `EdgeRange` can count.
pub fn merge_adjacencies(segments: &Vec<Segment>, outgoing: bool) -> (res: Result<
    Adjacency,
    StoreError,
>)
    requires
        all_wf(directed(segments@, outgoing)),
    ensures
        match res {
            Ok(adj) => {
                &&& adj.wf()
                &&& forall|id: NodeID| #[trigger] adj.edges_of(id) == fuse_edges(lists_of(directed(segments@, outgoing), id))
                &&& forall|id: NodeID|
                    #[trigger] has_node(adj.index(), id) == any_has_node(directed(segments@, outgoing), id)
                &&& forall|id: NodeID| (#[trigger] fuse_edges(lists_of(directed(segments@, outgoing), id))).len() <= u32::MAX
            },
            Err(e) => e == StoreError::ListTooLong && exists|id: NodeID|
                (#[trigger] fuse_edges(lists_of(directed(segments@, outgoing), id))).len() > u32::MAX,
        },
{
    let k = segments.len();
    let mut iters: Vec<Vec<MergeNode>> = Vec::new();
    let mut i: usize = 0;
    while i < k
        invariant
            i <= k,
            k == segments.len(),
            iters.len() == i,
            forall|a: int| 0 <= a < i ==> (#[trigger] iters@[a])@ == directed(segments@, outgoing)[a].index(),
        decreases k - i,
    {
        iters.push(segments[i].adjacency(outgoing).nodes());
        i += 1;
    }
    let mut merger = MergeIter::new(iters);
    let ghost mut cur: Seq<int> = Seq::new(k as nat, |i: int| 0int);
    let mut nodes: Vec<MergeNode> = Vec::new();
    let mut edges: Vec<StoredEdge<String>> = Vec::new();
    let mut buf: Vec<MergeNode<MergeSegmentOrd>> = Vec::new();
    proof {
        assert(merger@ =~= left_of(directed(segments@, outgoing), cur)) by {
            assert forall|i: int| 0 <= i < k implies #[trigger] merger@[i] == left_of(
                directed(segments@, outgoing),
                cur,
            )[i] by {
                assert(tagged(directed(segments@, outgoing)[i].index(), i as usize).skip(0) =~= tagged(
                    directed(segments@, outgoing)[i].index(),
                    i as usize,
                ));
            }
        }
    }
    loop
        invariant
            k == segments.len(),
            all_wf(directed(segments@, outgoing)),
            merger.wf(),
            merger@ == left_of(directed(segments@, outgoing), cur),
            compacting(directed(segments@, outgoing), cur, nodes@, edges@),
        ensures
            !has_live(left_of(directed(segments@, outgoing), cur)),
            compacting(directed(segments@, outgoing), cur, nodes@, edges@),
        decreases crate::fuse::total_len(merger@),
    {
        let ghost rem = merger@;
        if !merger.advance(&mut buf) {
            break ;
        }
        let ghost m = least_key(rem);
        proof {
            crate::fuse::lemma_step_shrinks(rem);
            crate::fuse::lemma_first_with_head(rem, m, rem.len());
            let w = choose|w: int| 0 <= w < rem.len() && (#[trigger] rem[w]).len() > 0 && rem[w][0].spec_key() == m;
            assert(rem[w][0] == tagged(directed(segments@, outgoing)[w].index(), w as usize)[cur[w]]);
            assert(given_below(directed(segments@, outgoing), cur, m.0)) by {
                assert forall|i: int, j: int| 0 <= i < directed(segments@, outgoing).len() && 0 <= j < cur[i] implies (
                #[trigger] directed(segments@, outgoing)[i].index()[j]).node.0 < m.0 by {
                    let id = directed(segments@, outgoing)[i].index()[j].node;
                    assert(has_node(nodes@, id));
                    let t = choose|t: int| 0 <= t < nodes@.len() && (#[trigger] nodes@[t]).node == id;
                    assert(nodes@[t].node.0 < directed(segments@, outgoing)[w].index()[cur[w]].node.0);
                }
            }
            let at = lemma_group_item(rem, m, rem.len(), 0);
            lemma_run_len_bounds(rem[at.0], m);
        }
        let node = buf[0].id();
        assert(node == NodeID(m.0));
        let lists = gather_lists(segments, outgoing, &buf, Ghost(cur), Ghost(m));
        let fused = fuse_edge_lists(lists);
        if fused.len() > u32::MAX as usize {
            return Err(StoreError::ListTooLong);
        }
        let start = edges.len();
        let ghost old_edges = edges@;
        let count = fused.len() as u32;
        let mut fused = fused;
        edges.append(&mut fused);
        let end = edges.len();
        let entry = MergeNode::new(
            node,
            EdgeRange { start: start as u64, end: end as u64, count },
            (start as u64)..(end as u64),
        );
        proof {
            lemma_compacting_step(
                directed(segments@, outgoing),
                cur,
                nodes@,
                old_edges,
                m,
                entry,
                fuse_edges(lists_of(directed(segments@, outgoing), node)),
            );
            lemma_advanced(directed(segments@, outgoing), cur, m);
            cur = advanced(directed(segments@, outgoing), cur, m);
        }
        nodes.push(entry);
    }
    proof {
        lemma_compacting_done(directed(segments@, outgoing), cur, nodes@, edges@);
    }
    Ok(Adjacency::from_parts(nodes, edges))
}

} // verus!

verus! {

/// The indices of one direction, one per segment.
pub open spec fn directed(segments: Seq<Segment>, outgoing: bool) -> Seq<Adjacency> {
    Seq::new(segments.len(), |i: int| segments[i].spec_direction(outgoing))
}

/// The page indices, one per segment.
pub open spec fn page_lists(segments: Seq<Segment>) -> Seq<Seq<PageEntry>> {
    Seq::new(segments.len(), |i: int| segments[i].spec_pages())
}

/// Every segment is well formed.
pub open spec fn segments_wf(segments: Seq<Segment>) -> bool {
    forall|i: int| 0 <= i < segments.len() ==> (#[trigger] segments[i]).wf()
}

/// Some fused adjacency list of `segments` has more edges than an
/// `EdgeRange` can count.
pub open spec fn overlong(segments: Seq<Segment>) -> bool {
    exists|id: NodeID, outgoing: bool|
        (#[trigger] fuse_edges(lists_of(directed(segments, outgoing), id))).len() > u32::MAX
}

/// `seg` is the compaction of `segments` under the id `id`: for every node it
/// holds, in each direction, the fusion of the adjacency lists that the
/// segments hold for it, the segments taken in their order; it has a node in
/// an index where some segment has it there; and its pages are the fusion of
/// their pages.
///
/// Adjacency lists are fused by the sort keys of the neighbours: of the
/// edges of one sort key that the segments hold at a node, one stays, the
/// first of those whose neighbour has the least id.
pub open spec fn is_compaction(
    seg: Segment,
    segments: Seq<Segment>,
    compression: Compression,
    id: Seq<char>,
) -> bool {
    &&& seg.wf()
    &&& seg.spec_id() == id
    &&& seg.spec_compression() == compression
    &&& forall|node: NodeID, outgoing: bool|
        #[trigger] seg.spec_direction(outgoing).edges_of(node) == fuse_edges(
            lists_of(directed(segments, outgoing), node),
        )
    &&& forall|node: NodeID, outgoing: bool|
        #[trigger] has_node(seg.spec_direction(outgoing).index(), node) == any_has_node(
            directed(segments, outgoing),
            node,
        )
    &&& seg.spec_pages() == fuse(page_lists(segments))
}

/// The adjacencies of well-formed segments are well formed.
pub proof fn lemma_directed_wf(segments: Seq<Segment>, outgoing: bool)
    requires
        segments_wf(segments),
    ensures
        all_wf(directed(segments, outgoing)),
{
    assert forall|i: int| 0 <= i < segments.len() implies (#[trigger] directed(
        segments,
        outgoing,
    )[i]).wf() by {
        segments[i].lemma_wf();
    }
}

impl Segment {
    /// Compacts `segments` into one segment with the id `id`. At every node
    /// the edges of one sort key become one edge: the first of those whose
    /// neighbour has the least id.
    ///
    /// It fails where a fused list has more edges than an `EdgeRange` can
    /// count.
    pub fn merge(segments: &Vec<Segment>, compression: Compression, id: String) -> (res: Result<
        Segment,
        StoreError,
    >)
        requires
            segments_wf(segments@),
        ensures
            res is Ok <==> !overlong(segments@),
            match res {
                Ok(seg) => is_compaction(seg, segments@, compression, id@),
                Err(e) => e == StoreError::ListTooLong,
            },
    {
        proof {
            lemma_directed_wf(segments@, true);
            lemma_directed_wf(segments@, false);
            assert forall|i: int| 0 <= i < segments@.len() implies sorted(
                #[trigger] page_lists(segments@)[i],
            ) by {
                segments@[i].lemma_wf();
                let pages = segments@[i].spec_pages();
                assert forall|a: int, b: int| 0 <= a < b < pages.len() implies key_le(
                    (#[trigger] pages[a]).spec_key(),
                    (#[trigger] pages[b]).spec_key(),
                ) by {
                    assert(key_lt(pages[a].spec_key(), pages[b].spec_key()));
                }
            }
            lemma_fuse_sorted(page_lists(segments@));
        }
        let forward = match merge_adjacencies(segments, true) {
            Ok(adj) => adj,
            Err(e) => {
                return Err(e);
            },
        };
        let reverse = match merge_adjacencies(segments, false) {
            Ok(adj) => adj,
            Err(e) => {
                return Err(e);
            },
        };
        let k = segments.len();
        let mut pg: Vec<Vec<PageEntry>> = Vec::new();
        let mut i: usize = 0;
        while i < k
            invariant
                i <= k,
                k == segments.len(),
                pg.len() == i,
                forall|a: int| 0 <= a < i ==> (#[trigger] pg@[a])@ == segments@[a].spec_pages(),
            decreases k - i,
        {
            pg.push(segments[i].pages());
            i += 1;
        }
        assert(vec_views(pg@) =~= page_lists(segments@));
        let pages = fuse_all(pg);
        let seg = Segment::new(id, compression, forward, reverse, pages);
        proof {
            assert forall|node: NodeID, outgoing: bool|
                #[trigger] seg.spec_direction(outgoing).edges_of(node) == fuse_edges(
                    lists_of(directed(segments@, outgoing), node),
                ) && (fuse_edges(lists_of(directed(segments@, outgoing), node))).len() <= u32::MAX by {
                if outgoing {
                    assert(seg.spec_direction(true) == forward);
                } else {
                    assert(seg.spec_direction(false) == reverse);
                }
            }
            assert forall|node: NodeID, outgoing: bool|
                #[trigger] has_node(seg.spec_direction(outgoing).index(), node) == any_has_node(
                    directed(segments@, outgoing),
                    node,
                ) by {
                if outgoing {
                    assert(seg.spec_direction(true) == forward);
                } else {
                    assert(seg.spec_direction(false) == reverse);
                }
            }
            assert(!overlong(segments@)) by {
                if overlong(segments@) {
                    let (node, outgoing) = choose|node: NodeID, outgoing: bool|
                        (#[trigger] fuse_edges(lists_of(directed(segments@, outgoing), node))).len()
                            > u32::MAX;
                    assert(seg.spec_direction(outgoing).edges_of(node) == fuse_edges(
                        lists_of(directed(segments@, outgoing), node),
                    ));
                }
            }
        }
        Ok(seg)
    }
}

} // verus!
