//! What an adjacency query answers from the edges that the segments hold for
//! a node: one edge per neighbour, in the order of the neighbours' data.

use crate::edge::{EdgeLimit, NodeDatum, StoredEdge};
use crate::sort::{
    is_first_of_id, is_selection_order, lemma_selection_order, lemma_selection_order_unique,
    positions, select, selection_order,
};
use vstd::prelude::*;

verus! {

/// The neighbours' data of the edges `g`.
pub open spec fn datums<L>(g: Seq<StoredEdge<L>>) -> Seq<NodeDatum> {
    Seq::new(g.len(), |p: int| g[p].other)
}

/// The items of `g` at the positions `order`.
pub open spec fn pick<T>(g: Seq<T>, order: Seq<int>) -> Seq<T> {
    Seq::new(order.len(), |t: int| g[order[t]])
}

/// The selection from the edges `g`: for each neighbour the first edge that
/// leads to it, the edges listed by their neighbours' `(sort_key, id)`.
pub open spec fn selection<L>(g: Seq<StoredEdge<L>>) -> Seq<StoredEdge<L>> {
    pick(g, selection_order(datums(g)))
}

/// The lists `lists[0..n]`, one after the other.
pub open spec fn concat_upto<T>(lists: Seq<Seq<T>>, n: nat) -> Seq<T>
    decreases n,
{
    if n == 0 {
        Seq::empty()
    } else {
        concat_upto(lists, (n - 1) as nat) + lists[n - 1]
    }
}

/// The lists, one after the other.
pub open spec fn concat<T>(lists: Seq<Seq<T>>) -> Seq<T> {
    concat_upto(lists, lists.len())
}

/// Some edge of `list` leads to the neighbour `id`.
pub open spec fn leads_to<L>(list: Seq<StoredEdge<L>>, id: crate::node::NodeID) -> bool {
    exists|t: int| 0 <= t < list.len() && (#[trigger] list[t]).other.id == id
}

/// The selection holds no neighbour twice, is sorted by the neighbours'
/// data, holds edges of `g` only, and lacks no neighbour that `g` has.
pub proof fn lemma_selection<L>(g: Seq<StoredEdge<L>>)
    ensures
        forall|a: int, b: int|
            0 <= a < b < selection(g).len() ==> (#[trigger] selection(g)[a]).other.spec_lt(
                (#[trigger] selection(g)[b]).other,
            ),
        forall|a: int, b: int|
            0 <= a < b < selection(g).len() ==> (#[trigger] selection(g)[a]).other.id != (
            #[trigger] selection(g)[b]).other.id,
        forall|t: int| 0 <= t < selection(g).len() ==> g.contains(#[trigger] selection(g)[t]),
        forall|p: int| 0 <= p < g.len() ==> leads_to(selection(g), (#[trigger] g[p]).other.id),
        selection(g).len() <= g.len(),
{
    let data = datums(g);
    let order = selection_order(data);
    let sel = selection(g);
    lemma_selection_order(data);
    assert forall|a: int, b: int| 0 <= a < b < sel.len() implies (#[trigger] sel[a]).other.spec_lt(
        (#[trigger] sel[b]).other,
    ) && sel[a].other.id != sel[b].other.id by {
        assert(data[order[a]].spec_lt(data[order[b]]));
        // two first positions of one id would be the same position
        if sel[a].other.id == sel[b].other.id {
            if order[a] < order[b] {
                assert(data[order[a]].id != data[order[b]].id);
            } else if order[b] < order[a] {
                assert(data[order[b]].id != data[order[a]].id);
            }
        }
    }
    assert forall|t: int| 0 <= t < sel.len() implies g.contains(#[trigger] sel[t]) by {
        assert(g[order[t]] == sel[t]);
    }
    assert forall|p: int| 0 <= p < g.len() implies leads_to(
        selection(g),
        (#[trigger] g[p]).other.id,
    ) by {
        let q = lemma_first_position(data, p);
        let t = choose|t: int| 0 <= t < order.len() && #[trigger] order[t] == q;
        assert(sel[t] == g[q]);
        assert(data[q] == g[q].other);
        assert(data[p] == g[p].other);
        assert(0 <= t < selection(g).len() && selection(g)[t].other.id == g[p].other.id);
    }
    lemma_order_len(order, data, data.len() as int);
}

/// The first position of the id that the datum at `p` has.
pub proof fn lemma_first_position(data: Seq<NodeDatum>, p: int) -> (q: int)
    requires
        0 <= p < data.len(),
    ensures
        0 <= q <= p,
        data[q].id == data[p].id,
        is_first_of_id(data, q),
    decreases p,
{
    if is_first_of_id(data, p) {
        p
    } else {
        let r = choose|r: int| 0 <= r < p && (#[trigger] data[r]).id == data[p].id;
        lemma_first_position(data, r)
    }
}

/// Positions that rise in their data are distinct, so there are no more of
/// them than data.
proof fn lemma_order_len(order: Seq<int>, data: Seq<NodeDatum>, n: int)
    requires
        forall|t: int| 0 <= t < order.len() ==> 0 <= (#[trigger] order[t]) < n,
        0 <= n <= data.len(),
        forall|a: int, b: int|
            0 <= a < b < order.len() ==> data[#[trigger] order[a]].spec_lt(data[#[trigger] order[b]]),
    ensures
        order.len() <= n,
    decreases n,
{
    if order.len() > 0 {
        if exists|t: int| 0 <= t < order.len() && #[trigger] order[t] == n - 1 {
            let t = choose|t: int| 0 <= t < order.len() && #[trigger] order[t] == n - 1;
            let rest = order.remove(t);
            assert forall|u: int| 0 <= u < rest.len() implies 0 <= (#[trigger] rest[u]) < n - 1 by {
                let v = if u < t {
                    u
                } else {
                    u + 1
                };
                assert(rest[u] == order[v]);
                if u < t {
                    assert(data[order[u]].spec_lt(data[order[t]]));
                } else {
                    assert(data[order[t]].spec_lt(data[order[u + 1]]));
                }
            }
            assert forall|a: int, b: int| 0 <= a < b < rest.len() implies data[#[trigger] rest[a]].spec_lt(
                data[#[trigger] rest[b]],
            ) by {
                let a2 = if a < t {
                    a
                } else {
                    a + 1
                };
                let b2 = if b < t {
                    b
                } else {
                    b + 1
                };
                assert(rest[a] == order[a2]);
                assert(rest[b] == order[b2]);
                assert(data[order[a2]].spec_lt(data[order[b2]]));
            }
            lemma_order_len(rest, data, n - 1);
            assert(rest.len() == order.len() - 1);
        } else {
            assert(n > 0) by {
                assert(0 <= order[0] < n);
            }
            assert forall|u: int| 0 <= u < order.len() implies 0 <= (#[trigger] order[u]) < n - 1 by {
                assert(0 <= order[u] < n);
            }
            lemma_order_len(order, data, n - 1);
        }
    }
}

/// Moves the items of `v` into slots of their own, in their order.
fn into_slots<T>(v: Vec<T>) -> (slots: Vec<Option<T>>)
    ensures
        slots.len() == v.len(),
        forall|p: int| 0 <= p < v.len() ==> #[trigger] slots[p] == Some(v[p]),
{
    let ghost all = v@;
    let mut v = v;
    let mut back: Vec<T> = Vec::new();
    while v.len() > 0
        invariant
            v.len() + back.len() == all.len(),
            v@ == all.take(v.len() as int),
            forall|i: int| 0 <= i < back.len() ==> #[trigger] back[i] == all[all.len() - 1 - i],
        decreases v.len(),
    {
        let item = v.pop().unwrap();
        back.push(item);
    }
    let mut slots: Vec<Option<T>> = Vec::new();
    while back.len() > 0
        invariant
            slots.len() + back.len() == all.len(),
            forall|i: int| 0 <= i < back.len() ==> #[trigger] back[i] == all[all.len() - 1 - i],
            forall|p: int| 0 <= p < slots.len() ==> #[trigger] slots[p] == Some(all[p]),
        decreases back.len(),
    {
        let item = back.pop().unwrap();
        slots.push(Some(item));
    }
    slots
}

/// Selects from the edges `g` and applies the limit: for each neighbour the
/// first edge that leads to it, by the neighbours' `(sort_key, id)`, and of
/// these the first that `limit` lets through.
pub fn choose_edges<L>(g: Vec<StoredEdge<L>>, limit: &EdgeLimit) -> (res: Vec<StoredEdge<L>>)
    ensures
        res@ == limit.spec_apply(selection(g@)),
{
    let n = g.len();
    let mut data: Vec<NodeDatum> = Vec::new();
    let mut p: usize = 0;
    while p < n
        invariant
            p <= n,
            n == g.len(),
            data@ == datums(g@).take(p as int),
        decreases n - p,
    {
        data.push(g[p].other);
        assert(data@ =~= datums(g@).take(p + 1));
        p += 1;
    }
    assert(data@ =~= datums(g@));
    let order = select(&data);
    let ghost full = selection(g@);
    proof {
        lemma_selection_order(data@);
        lemma_selection_order_unique(positions(order@), selection_order(data@), data@);
        assert(full.len() == order.len());
    }
    let keep = limit.count(order.len());
    let mut slots = into_slots(g);
    let mut res: Vec<StoredEdge<L>> = Vec::new();
    let mut t: usize = 0;
    while t < keep
        invariant
            t <= keep <= order.len(),
            slots.len() == n,
            n == g.len(),
            data@ == datums(g@),
            is_selection_order(positions(order@), data@),
            full == pick(g@, positions(order@)),
            res@ == full.take(t as int),
            forall|q: int|
                0 <= q < n ==> #[trigger] slots[q] == Some(g[q]) || exists|u: int|
                    0 <= u < t && positions(order@)[u] == q,
        decreases keep - t,
    {
        let at = order[t];
        proof {
            let ints = positions(order@);
            assert(ints[t as int] == at);
            assert(0 <= ints[t as int] < data@.len());
            if exists|u: int| 0 <= u < t && ints[u] == at as int {
                let u = choose|u: int| 0 <= u < t && ints[u] == at as int;
                assert(data@[ints[u]].spec_lt(data@[ints[t as int]]));
            }
        }
        let ghost before = slots@;
        let edge = slots[at].take().unwrap();
        res.push(edge);
        proof {
            assert(res@ =~= full.take(t + 1));
            assert forall|q: int| 0 <= q < n implies #[trigger] slots[q] == Some(g[q]) || exists|
                u: int,
            | 0 <= u < t + 1 && positions(order@)[u] == q by {
                if q == at {
                    assert(positions(order@)[t as int] == q);
                } else {
                    assert(slots[q] == before[q]);
                    if before[q] != Some(g[q]) {
                        let u = choose|u: int| 0 <= u < t && positions(order@)[u] == q;
                        assert(0 <= u < t + 1 && positions(order@)[u] == q);
                    }
                }
            }
        }
        t += 1;
    }
    res
}

} // verus!

verus! {

/// Every item of the concatenation is an item of some list.
pub proof fn lemma_concat_item<T>(lists: Seq<Seq<T>>, n: nat, p: int) -> (at: (int, int))
    requires
        n <= lists.len(),
        0 <= p < concat_upto(lists, n).len(),
    ensures
        0 <= at.0 < n,
        0 <= at.1 < lists[at.0].len(),
        lists[at.0][at.1] == concat_upto(lists, n)[p],
    decreases n,
{
    let prev = concat_upto(lists, (n - 1) as nat);
    if p < prev.len() {
        lemma_concat_item(lists, (n - 1) as nat, p)
    } else {
        (n - 1, p - prev.len())
    }
}

/// An item of a list is an item of the concatenation.
pub proof fn lemma_concat_holds<T>(lists: Seq<Seq<T>>, n: nat, i: int, t: int)
    requires
        n <= lists.len(),
        0 <= i < n,
        0 <= t < lists[i].len(),
    ensures
        concat_upto(lists, n).contains(lists[i][t]),
    decreases n,
{
    let prev = concat_upto(lists, (n - 1) as nat);
    let all = concat_upto(lists, n);
    assert(all == prev + lists[n - 1]);
    if i < n - 1 {
        lemma_concat_holds(lists, (n - 1) as nat, i, t);
        let p = choose|p: int| 0 <= p < prev.len() && prev[p] == lists[i][t];
        assert(all[p] == lists[i][t]);
    } else {
        assert(all[prev.len() + t] == lists[i][t]);
    }
}

} // verus!
