//! The fusion of adjacency lists: what a merge of adjacency lists yields when
//! it is run to the end.
//!
//! Edges are merged by the sort keys of their neighbours. Step by step the
//! least sort key at the heads is found, every list loses its leading run of
//! edges with that sort key, and of these edges the one with the least
//! neighbour id comes out, the first of them where several name that
//! neighbour.

use crate::edge::StoredEdge;
use crate::fuse::{
    all_sorted,
    fuse,
    fuse_steps,
    lemma_dead_zero,
    lemma_first_with_head,
    lemma_fuse_sorted,
    lemma_group_item,
    lemma_least_head_exists,
    lemma_live_positive,
    lemma_step_shrinks,
    next_item,
    strictly_sorted,
    total_len,
};
use crate::fuse::lemma_group_has;
use crate::kway::{
    drained, group, group_upto, has_live, key_lt, least_key, lemma_run_len_bounds, run_len,
    vec_views, MergeKey,
};
use crate::segment::datum_sorted;
use crate::merge::EdgeMerger;
use vstd::prelude::*;

verus! {

/// The position, among the first `n` edges of `list`, of the first edge whose
/// neighbour has the least id.
pub open spec fn least_at<L>(list: Seq<StoredEdge<L>>, n: nat) -> int
    decreases n,
{
    if n <= 1 {
        0
    } else {
        let p = least_at(list, (n - 1) as nat);
        if list[n - 1].other.id.0 < list[p].other.id.0 {
            n - 1
        } else {
            p
        }
    }
}

/// The first edge of `list` whose neighbour has the least id.
pub open spec fn least<L>(list: Seq<StoredEdge<L>>) -> StoredEdge<L> {
    list[least_at(list, list.len())]
}

/// The edge that a merge of `s` yields first: of the edges with the least
/// sort key at the heads of the lists, the first whose neighbour has the
/// least id.
pub open spec fn next_edge<L>(s: Seq<Seq<StoredEdge<L>>>) -> StoredEdge<L> {
    least(group(s, least_key(s)))
}

/// What the merge yields in at most `fuel` steps.
pub open spec fn fuse_edges_steps<L>(s: Seq<Seq<StoredEdge<L>>>, fuel: nat) -> Seq<StoredEdge<L>>
    decreases fuel,
{
    if fuel == 0 || !has_live(s) {
        Seq::empty()
    } else {
        seq![next_edge(s)] + fuse_edges_steps(drained(s, least_key(s)), (fuel - 1) as nat)
    }
}

/// What the merge yields when it is run until every list is exhausted.
pub open spec fn fuse_edges<L>(s: Seq<Seq<StoredEdge<L>>>) -> Seq<StoredEdge<L>> {
    fuse_edges_steps(s, total_len(s))
}

/// Edges of one sort key lead to one neighbour, in whatever lists they are.
pub open spec fn keyed_apart<L>(s: Seq<Seq<StoredEdge<L>>>) -> bool {
    forall|i: int, j: int, a: int, b: int|
        #![trigger s[i][j], s[a][b]]
        0 <= i < s.len() && 0 <= j < s[i].len() && 0 <= a < s.len() && 0 <= b < s[a].len()
            && s[i][j].other.sort_key == s[a][b].other.sort_key ==> s[i][j].other.id
            == s[a][b].other.id
}

/// What `least_at` finds: a position whose neighbour id none undercuts, and
/// before which every neighbour id is larger.
pub proof fn lemma_least_at<L>(list: Seq<StoredEdge<L>>, n: nat)
    requires
        1 <= n <= list.len(),
    ensures
        0 <= least_at(list, n) < n,
        forall|j: int|
            0 <= j < n ==> list[least_at(list, n)].other.id.0 <= (#[trigger] list[j]).other.id.0,
        forall|j: int|
            0 <= j < least_at(list, n) ==> list[least_at(list, n)].other.id.0 < (
            #[trigger] list[j]).other.id.0,
    decreases n,
{
    if n > 1 {
        lemma_least_at(list, (n - 1) as nat);
    }
}

/// Where every neighbour of `list` has one id, the first edge is the least.
pub proof fn lemma_least_of_one<L>(list: Seq<StoredEdge<L>>, n: nat)
    requires
        n <= list.len(),
        forall|j: int| 0 <= j < list.len() ==> (#[trigger] list[j]).other.id == list[0].other.id,
    ensures
        least_at(list, n) == 0,
    decreases n,
{
    if n > 1 {
        lemma_least_of_one(list, (n - 1) as nat);
        assert(list[n - 1].other.id == list[0].other.id);
    }
}

/// The edge that comes out first is an edge of some list's leading run, and
/// carries the least sort key.
pub proof fn lemma_next_edge<L>(s: Seq<Seq<StoredEdge<L>>>) -> (at: (int, int))
    requires
        has_live(s),
    ensures
        0 <= at.0 < s.len(),
        0 <= at.1 < run_len(s[at.0], least_key(s)),
        at.1 < s[at.0].len(),
        s[at.0][at.1] == next_edge(s),
        next_edge(s).spec_key() == least_key(s),
        next_item(s).spec_key() == least_key(s),
        group(s, least_key(s)).len() > 0,
{
    let m = least_key(s);
    lemma_least_head_exists(s);
    lemma_first_with_head(s, m, s.len());
    let g = group(s, m);
    lemma_least_at(g, g.len());
    let at = lemma_group_item(s, m, s.len(), least_at(g, g.len()));
    lemma_run_len_bounds(s[at.0], m);
    at
}

/// The edge that comes out of lists sorted by their neighbours is the least
/// of the heads by the neighbour's `(sort_key, id)`: the head of the list
/// `i`, before which no list has that neighbour at its head.
pub proof fn law_next_edge_is_least<L>(s: Seq<Seq<StoredEdge<L>>>) -> (i: int)
    requires
        has_live(s),
        forall|k: int| 0 <= k < s.len() ==> datum_sorted(#[trigger] s[k]),
    ensures
        0 <= i < s.len(),
        s[i].len() > 0,
        next_edge(s) == s[i][0],
        forall|k: int|
            0 <= k < s.len() && (#[trigger] s[k]).len() > 0 ==> s[i][0].other.spec_le(
                s[k][0].other,
            ),
        forall|k: int|
            0 <= k < i && (#[trigger] s[k]).len() > 0 ==> s[k][0].other != s[i][0].other,
{
    let m = least_key(s);
    let n = s.len();
    let g = group(s, m);
    lemma_least_head_exists(s);
    lemma_first_with_head(s, m, n);
    lemma_least_at(g, g.len());
    let p = least_at(g, g.len());
    let at = lemma_group_item(s, m, n, p);
    lemma_run_len_bounds(s[at.0], m);
    // the least of a run is its head
    if at.1 > 0 {
        let b = lemma_group_has(s, m, n, at.0, 0);
        assert(s[at.0][0].other.spec_le(s[at.0][at.1].other));
        assert(s[at.0][0].spec_key() == m && s[at.0][at.1].spec_key() == m);
        assert(g[b].other.id.0 <= g[p].other.id.0);
    }
    assert forall|k: int| 0 <= k < n && (#[trigger] s[k]).len() > 0 implies s[at.0][0].other.spec_le(
        s[k][0].other,
    ) by {
        if s[k][0].spec_key() == m {
            assert(run_len(s[k], m) > 0) by {
                reveal_with_fuel(run_len, 2);
            }
            let b = lemma_group_has(s, m, n, k, 0);
            assert(g[p].other.id.0 <= g[b].other.id.0);
        } else {
            assert(crate::kway::key_le(m, s[k][0].spec_key()));
        }
    }
    assert forall|k: int| 0 <= k < at.0 && (#[trigger] s[k]).len() > 0 implies s[k][0].other
        != s[at.0][0].other by {
        if s[k][0].other == s[at.0][0].other {
            assert(s[k][0].spec_key() == m);
            assert(run_len(s[k], m) > 0) by {
                reveal_with_fuel(run_len, 2);
            }
            let b = lemma_group_has(s, m, n, k, 0);
            lemma_group_upto_grows(s, m, k + 1, at.0);
            assert(b < p);
        }
    }
    at.0
}

/// The group of more lists is no shorter.
proof fn lemma_group_upto_grows<L>(s: Seq<Seq<StoredEdge<L>>>, m: (u64, u64), a: int, b: int)
    requires
        0 <= a <= b <= s.len(),
    ensures
        group_upto(s, m, a as nat).len() <= group_upto(s, m, b as nat).len(),
        a >= 1 ==> group_upto(s, m, a as nat).len() == group_upto(s, m, (a - 1) as nat).len()
            + run_len(s[a - 1], m),
    decreases b - a,
{
    if a >= 1 {
        lemma_run_len_bounds(s[a - 1], m);
    }
    if a < b {
        lemma_group_upto_grows(s, m, a + 1, b);
        lemma_run_len_bounds(s[a], m);
    }
}

/// More steps than there are edges yield no more.
pub proof fn lemma_fuse_edges_fuel<L>(s: Seq<Seq<StoredEdge<L>>>, fuel: nat)
    requires
        fuel >= total_len(s),
    ensures
        fuse_edges_steps(s, fuel) == fuse_edges(s),
    decreases fuel,
{
    if !has_live(s) {
        lemma_dead_zero(s, s.len());
    } else {
        let i = choose|i: int| 0 <= i < s.len() && (#[trigger] s[i]).len() > 0;
        lemma_live_positive(s, s.len(), i);
        lemma_step_shrinks(s);
        let d = drained(s, least_key(s));
        lemma_fuse_edges_fuel(d, (fuel - 1) as nat);
        lemma_fuse_edges_fuel(d, (total_len(s) - 1) as nat);
    }
}

/// The merge of exhausted lists yields nothing; any other merge yields its
/// next edge and then what the merge of the drained lists yields.
pub proof fn lemma_fuse_edges_unfold<L>(s: Seq<Seq<StoredEdge<L>>>)
    ensures
        !has_live(s) ==> fuse_edges(s) == Seq::<StoredEdge<L>>::empty(),
        has_live(s) ==> fuse_edges(s) == seq![next_edge(s)] + fuse_edges(
            drained(s, least_key(s)),
        ),
{
    if has_live(s) {
        let i = choose|i: int| 0 <= i < s.len() && (#[trigger] s[i]).len() > 0;
        lemma_live_positive(s, s.len(), i);
        lemma_step_shrinks(s);
        lemma_fuse_edges_fuel(drained(s, least_key(s)), (total_len(s) - 1) as nat);
    }
}

/// The merge yields as many edges as there are sort keys, and each edge
/// carries the sort key that comes out at its step.
pub proof fn lemma_fuse_edges_keys<L>(s: Seq<Seq<StoredEdge<L>>>, fuel: nat)
    ensures
        fuse_edges_steps(s, fuel).len() == fuse_steps(s, fuel).len(),
        forall|t: int|
            0 <= t < fuse_edges_steps(s, fuel).len() ==> (#[trigger] fuse_edges_steps(
                s,
                fuel,
            )[t]).spec_key() == fuse_steps(s, fuel)[t].spec_key(),
    decreases fuel,
{
    if !(fuel == 0 || !has_live(s)) {
        let d = drained(s, least_key(s));
        lemma_fuse_edges_keys(d, (fuel - 1) as nat);
        let _ = lemma_next_edge(s);
        let mine = fuse_edges_steps(s, fuel);
        let theirs = fuse_steps(s, fuel);
        assert forall|t: int| 0 <= t < mine.len() implies (#[trigger] mine[t]).spec_key()
            == theirs[t].spec_key() by {
            if t > 0 {
                assert(mine[t] == fuse_edges_steps(d, (fuel - 1) as nat)[t - 1]);
                assert(theirs[t] == fuse_steps(d, (fuel - 1) as nat)[t - 1]);
            }
        }
    }
}

/// The fusion of sorted lists rises strictly by the sort keys.
pub proof fn lemma_fuse_edges_sorted<L>(s: Seq<Seq<StoredEdge<L>>>)
    requires
        all_sorted(s),
    ensures
        strictly_sorted(fuse_edges(s)),
        fuse_edges(s).len() == fuse(s).len(),
        forall|t: int|
            0 <= t < fuse_edges(s).len() ==> (#[trigger] fuse_edges(s)[t]).spec_key() == fuse(
                s,
            )[t].spec_key(),
{
    lemma_fuse_sorted(s);
    lemma_fuse_edges_keys(s, total_len(s));
    let mine = fuse_edges(s);
    let theirs = fuse(s);
    assert forall|a: int, b: int| 0 <= a < b < mine.len() implies key_lt(
        (#[trigger] mine[a]).spec_key(),
        (#[trigger] mine[b]).spec_key(),
    ) by {
        assert(key_lt(theirs[a].spec_key(), theirs[b].spec_key()));
    }
}

/// Every edge that the merge yields is an edge of some list.
pub proof fn lemma_fuse_edges_item<L>(s: Seq<Seq<StoredEdge<L>>>, fuel: nat, t: int) -> (at: (
    int,
    int,
))
    requires
        0 <= t < fuse_edges_steps(s, fuel).len(),
    ensures
        0 <= at.0 < s.len(),
        0 <= at.1 < s[at.0].len(),
        s[at.0][at.1] == fuse_edges_steps(s, fuel)[t],
    decreases fuel,
{
    let m = least_key(s);
    if t == 0 {
        let at = lemma_next_edge(s);
        at
    } else {
        let d = drained(s, m);
        let at = lemma_fuse_edges_item(d, (fuel - 1) as nat, t - 1);
        lemma_run_len_bounds(s[at.0], m);
        (at.0, at.1 + run_len(s[at.0], m))
    }
}

/// Where edges of one sort key lead to one neighbour, the edge that comes out
/// of each step is the head of the first list whose head carries the least
/// sort key.
pub proof fn lemma_fuse_edges_plain<L>(s: Seq<Seq<StoredEdge<L>>>, fuel: nat)
    requires
        keyed_apart(s),
    ensures
        fuse_edges_steps(s, fuel) == fuse_steps(s, fuel),
    decreases fuel,
{
    if !(fuel == 0 || !has_live(s)) {
        let m = least_key(s);
        let d = drained(s, m);
        let g = group(s, m);
        assert(keyed_apart(d)) by {
            assert forall|i: int, j: int, a: int, b: int|
                #![trigger d[i][j], d[a][b]]
                0 <= i < d.len() && 0 <= j < d[i].len() && 0 <= a < d.len() && 0 <= b < d[a].len()
                    && d[i][j].other.sort_key == d[a][b].other.sort_key implies d[i][j].other.id
                == d[a][b].other.id by {
                lemma_run_len_bounds(s[i], m);
                lemma_run_len_bounds(s[a], m);
                assert(d[i][j] == s[i][j + run_len(s[i], m)]);
                assert(d[a][b] == s[a][b + run_len(s[a], m)]);
            }
        }
        lemma_fuse_edges_plain(d, (fuel - 1) as nat);
        lemma_least_head_exists(s);
        lemma_first_with_head(s, m, s.len());
        assert forall|j: int| 0 <= j < g.len() implies (#[trigger] g[j]).other.id
            == g[0].other.id by {
            let x = lemma_group_item(s, m, s.len(), j);
            let y = lemma_group_item(s, m, s.len(), 0);
            lemma_run_len_bounds(s[x.0], m);
            lemma_run_len_bounds(s[y.0], m);
            assert(s[x.0][x.1].spec_key() == m);
            assert(s[y.0][y.1].spec_key() == m);
        }
        lemma_least_of_one(g, g.len());
        assert(next_edge(s) == next_item(s));
    }
}

/// Runs the merge of the adjacency lists `inputs` to the end.
pub fn fuse_edge_lists<L>(inputs: Vec<Vec<StoredEdge<L>>>) -> (out: Vec<StoredEdge<L>>)
    ensures
        out@ == fuse_edges(vec_views(inputs@)),
{
    let ghost all = vec_views(inputs@);
    let mut merger = EdgeMerger::new(inputs);
    let mut out: Vec<StoredEdge<L>> = Vec::new();
    loop
        invariant
            merger.wf(),
            out@ + fuse_edges(merger@) == fuse_edges(all),
        ensures
            out@ == fuse_edges(all),
        decreases total_len(merger@),
    {
        let ghost before = merger@;
        proof {
            lemma_fuse_edges_unfold(before);
        }
        match merger.next() {
            None => {
                assert(out@ + Seq::<StoredEdge<L>>::empty() =~= out@);
                break ;
            },
            Some(edge) => {
                proof {
                    lemma_step_shrinks(before);
                }
                let ghost old_out = out@;
                out.push(edge);
                assert(out@ + fuse_edges(merger@) =~= old_out + (seq![next_edge(before)]
                    + fuse_edges(merger@)));
            },
        }
    }
    out
}

} // verus!
