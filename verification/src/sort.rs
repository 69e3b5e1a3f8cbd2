//! Sorting by key, and the selection that every adjacency query makes: one
//! edge per neighbour, in the order of the neighbours' data.

use crate::edge::NodeDatum;
use crate::heap::{MinHeap, SortKey};
use vstd::multiset::Multiset;
use vstd::prelude::*;

verus! {

broadcast use vstd::seq_lib::group_to_multiset_ensures;

/// The keys never fall.
pub open spec fn keys_sorted(s: Seq<SortKey>) -> bool {
    forall|a: int, b: int| 0 <= a < b < s.len() ==> (#[trigger] s[a]).spec_le(#[trigger] s[b])
}

/// The keys rise strictly.
pub open spec fn keys_rising(s: Seq<SortKey>) -> bool {
    forall|a: int, b: int| 0 <= a < b < s.len() ==> (#[trigger] s[a]).spec_lt(#[trigger] s[b])
}

/// Sorts `keys`.
///
/// The result holds the keys of `keys`, each as often as `keys` holds it, and
/// they never fall. Where no key occurs twice they rise strictly.
pub fn sort_keys(keys: &Vec<SortKey>) -> (out: Vec<SortKey>)
    ensures
        keys_sorted(out@),
        out@.to_multiset() == keys@.to_multiset(),
        out.len() == keys.len(),
        forall|x: SortKey| out@.contains(x) <==> keys@.contains(x),
        keys@.no_duplicates() ==> keys_rising(out@),
{
    let n = keys.len();
    let mut heap = MinHeap::new();
    let mut i: usize = 0;
    while i < n
        invariant
            i <= n,
            n == keys.len(),
            heap.wf(),
            heap@ == keys@.take(i as int).to_multiset(),
        decreases n - i,
    {
        heap.push(keys[i]);
        assert(keys@.take(i + 1) =~= keys@.take(i as int).push(keys@[i as int]));
        i += 1;
    }
    assert(keys@.take(n as int) =~= keys@);
    let mut out: Vec<SortKey> = Vec::new();
    assert(out@.to_multiset().add(heap@) =~= keys@.to_multiset());
    loop
        invariant
            heap.wf(),
            out@.to_multiset().add(heap@) == keys@.to_multiset(),
            keys_sorted(out@),
            forall|a: int, x: SortKey|
                #![trigger out@[a], heap@.count(x)]
                0 <= a < out.len() && heap@.count(x) > 0 ==> out@[a].spec_le(x),
        ensures
            out@.to_multiset() == keys@.to_multiset(),
            keys_sorted(out@),
        decreases heap@.len(),
    {
        let ghost heap_before = heap@;
        let ghost out_before = out@;
        match heap.pop() {
            None => {
                assert(heap@ =~= Multiset::<SortKey>::empty()) by {
                    vstd::multiset::lemma_multiset_empty_len(heap@);
                }
                assert(out@.to_multiset().add(heap@) =~= out@.to_multiset());
                break ;
            },
            Some(k) => {
                out.push(k);
                assert(out@.to_multiset().add(heap@) =~= out_before.to_multiset().add(heap_before));
                assert forall|a: int, x: SortKey|
                    #![trigger out@[a], heap@.count(x)]
                    0 <= a < out.len() && heap@.count(x) > 0 implies out@[a].spec_le(x) by {
                    assert(heap_before.count(x) > 0);
                    if a < out_before.len() {
                        assert(out_before[a].spec_le(x));
                    }
                }
                assert(heap_before.len() > 0);
            },
        }
    }
    proof {
        assert(out@.len() == keys@.len()) by {
            assert(out@.to_multiset().len() == keys@.to_multiset().len());
        }
        assert forall|x: SortKey| out@.contains(x) <==> keys@.contains(x) by {
            assert(out@.to_multiset().count(x) == keys@.to_multiset().count(x));
        }
        if keys@.no_duplicates() {
            keys@.lemma_multiset_has_no_duplicates();
            out@.lemma_multiset_has_no_duplicates_conv();
            assert forall|a: int, b: int| 0 <= a < b < out@.len() implies (#[trigger] out@[a]).spec_lt(
                #[trigger] out@[b],
            ) by {
                assert(out@[a].spec_le(out@[b]));
                assert(out@[a] != out@[b]);
            }
        }
    }
    out
}

/// No earlier datum of `data` has the id of the datum at `p`.
pub open spec fn is_first_of_id(data: Seq<NodeDatum>, p: int) -> bool {
    forall|q: int| 0 <= q < p ==> (#[trigger] data[q]).id != data[p].id
}

/// `order` selects from `data` one position per node id, the first that the
/// id has, and lists the positions by their data, which rise strictly.
pub open spec fn is_selection_order(order: Seq<int>, data: Seq<NodeDatum>) -> bool {
    &&& forall|t: int| 0 <= t < order.len() ==> 0 <= (#[trigger] order[t]) < data.len()
    &&& forall|t: int| 0 <= t < order.len() ==> is_first_of_id(data, #[trigger] order[t])
    &&& forall|a: int, b: int|
        0 <= a < b < order.len() ==> data[#[trigger] order[a]].spec_lt(
            data[#[trigger] order[b]],
        )
    &&& forall|p: int|
        0 <= p < data.len() && is_first_of_id(data, p) ==> exists|t: int|
            0 <= t < order.len() && #[trigger] order[t] == p
}

/// `is_selection_order`, for positions held as `usize`.
spec fn is_selection_slots(order: Seq<usize>, data: Seq<NodeDatum>) -> bool {
    &&& forall|t: int| 0 <= t < order.len() ==> (#[trigger] order[t]) < data.len()
    &&& forall|t: int| 0 <= t < order.len() ==> is_first_of_id(data, (#[trigger] order[t]) as int)
    &&& forall|a: int, b: int|
        0 <= a < b < order.len() ==> data[(#[trigger] order[a]) as int].spec_lt(
            data[(#[trigger] order[b]) as int],
        )
    &&& forall|p: int|
        0 <= p < data.len() && is_first_of_id(data, p) ==> exists|t: int|
            0 <= t < order.len() && #[trigger] order[t] == p
}

/// The positions `slots` as integers.
pub open spec fn positions(slots: Seq<usize>) -> Seq<int> {
    Seq::new(slots.len(), |t: int| slots[t] as int)
}

spec fn id_key(data: Seq<NodeDatum>, p: int) -> SortKey {
    SortKey { k0: data[p].id.0, k1: 0, k2: 0, slot: p as usize }
}

spec fn datum_key(data: Seq<NodeDatum>, p: int) -> SortKey {
    SortKey { k0: data[p].sort_key, k1: data[p].id.0, k2: 0, slot: p as usize }
}

/// The position of each node id's first datum in `data`, in rising order of
/// the positions' data.
pub fn select(data: &Vec<NodeDatum>) -> (order: Vec<usize>)
    ensures
        is_selection_order(positions(order@), data@),
{
    let n = data.len();
    // by node id, then by position
    let mut by_id: Vec<SortKey> = Vec::new();
    let mut p: usize = 0;
    while p < n
        invariant
            p <= n,
            n == data.len(),
            by_id.len() == p,
            forall|q: int| 0 <= q < p ==> #[trigger] by_id@[q] == id_key(data@, q),
        decreases n - p,
    {
        by_id.push(SortKey::new(data[p].id.0, 0, 0, p));
        p += 1;
    }
    assert(by_id@.no_duplicates());
    let sorted_ids = sort_keys(&by_id);
    proof {
        assert forall|a: int| 0 <= a < sorted_ids.len() implies (#[trigger] sorted_ids@[a]).slot < n
            && sorted_ids@[a] == id_key(data@, sorted_ids@[a].slot as int) by {
            assert(sorted_ids@.contains(sorted_ids@[a]));
            assert(by_id@.contains(sorted_ids@[a]));
        }
    }
    // the first position of each id, and its datum
    let mut firsts: Vec<SortKey> = Vec::new();
    let mut a: usize = 0;
    while a < n
        invariant
            a <= n,
            n == data.len(),
            n == sorted_ids.len(),
            n == by_id.len(),
            forall|q: int| 0 <= q < n ==> #[trigger] by_id@[q] == id_key(data@, q),
            forall|x: SortKey| sorted_ids@.contains(x) <==> by_id@.contains(x),
            keys_rising(sorted_ids@),
            forall|c: int|
                0 <= c < n ==> (#[trigger] sorted_ids@[c]).slot < n && sorted_ids@[c] == id_key(
                    data@,
                    sorted_ids@[c].slot as int,
                ),
            forall|t: int|
                0 <= t < firsts.len() ==> (#[trigger] firsts@[t]).slot < n && firsts@[t]
                    == datum_key(data@, firsts@[t].slot as int) && is_first_of_id(
                    data@,
                    firsts@[t].slot as int,
                ),
            forall|c: int|
                0 <= c < a && is_first_of_id(data@, (#[trigger] sorted_ids@[c]).slot as int)
                    ==> firsts@.contains(datum_key(data@, sorted_ids@[c].slot as int)),
            firsts@.no_duplicates(),
            forall|t: int, c: int|
                0 <= t < firsts.len() && a <= c < n ==> (#[trigger] firsts@[t]).slot != (
                #[trigger] sorted_ids@[c]).slot,
        decreases n - a,
    {
        let k = sorted_ids[a];
        let pos = k.slot;
        let is_first = a == 0 || sorted_ids[a - 1].k0 != k.k0;
        proof {
            if is_first {
                assert forall|q: int| 0 <= q < pos implies (#[trigger] data@[q]).id != data@[pos as int].id by {
                    if data@[q].id == data@[pos as int].id {
                        let kq = id_key(data@, q);
                        assert(by_id@[q] == kq);
                        assert(by_id@.contains(kq));
                        assert(sorted_ids@.contains(kq));
                        let c = choose|c: int| 0 <= c < n && sorted_ids@[c] == kq;
                        assert(kq.spec_lt(k));
                        if c > a {
                            assert(sorted_ids@[a as int].spec_lt(sorted_ids@[c]));
                        }
                        assert(c < a);
                        if c < a - 1 {
                            assert(sorted_ids@[c].spec_lt(sorted_ids@[a - 1]));
                            assert(sorted_ids@[a - 1].spec_lt(sorted_ids@[a as int]));
                        }
                    }
                }
            } else {
                let prev = sorted_ids@[a - 1];
                assert(prev.spec_lt(k));
                assert(prev == id_key(data@, prev.slot as int));
                assert(data@[prev.slot as int].id == data@[pos as int].id);
                assert(!is_first_of_id(data@, pos as int));
            }
        }
        if is_first {
            let ghost before = firsts@;
            let key = SortKey::new(data[pos].sort_key, data[pos].id.0, 0, pos);
            firsts.push(key);
            proof {
                assert forall|c: int|
                    0 <= c < a + 1 && is_first_of_id(
                        data@,
                        (#[trigger] sorted_ids@[c]).slot as int,
                    ) implies firsts@.contains(datum_key(data@, sorted_ids@[c].slot as int)) by {
                    if c < a {
                        let x = datum_key(data@, sorted_ids@[c].slot as int);
                        assert(before.contains(x));
                        let t = choose|t: int| 0 <= t < before.len() && before[t] == x;
                        assert(firsts@[t] == x);
                    } else {
                        assert(firsts@[firsts@.len() - 1] == key);
                    }
                }
                assert forall|t: int, c: int|
                    0 <= t < firsts.len() && a + 1 <= c < n implies (#[trigger] firsts@[t]).slot != (
                #[trigger] sorted_ids@[c]).slot by {
                    if t == before.len() {
                        assert(sorted_ids@[a as int].spec_lt(sorted_ids@[c]));
                    }
                }
                assert forall|t: int, u: int|
                    0 <= t < firsts@.len() && 0 <= u < firsts@.len() && t != u implies firsts@[t]
                    != firsts@[u] by {
                    if t == before.len() {
                        assert(before[u].slot != sorted_ids@[a as int].slot);
                    }
                    if u == before.len() {
                        assert(before[t].slot != sorted_ids@[a as int].slot);
                    }
                }
            }
        }
        a += 1;
    }
    let ranked = sort_keys(&firsts);
    let m = ranked.len();
    let mut order: Vec<usize> = Vec::new();
    let mut t: usize = 0;
    proof {
        assert forall|c: int| 0 <= c < m implies (#[trigger] ranked@[c]).slot < n && ranked@[c]
            == datum_key(data@, ranked@[c].slot as int) && is_first_of_id(
            data@,
            ranked@[c].slot as int,
        ) by {
            assert(ranked@.contains(ranked@[c]));
            assert(firsts@.contains(ranked@[c]));
        }
    }
    while t < m
        invariant
            t <= m,
            m == ranked.len(),
            order.len() == t,
            forall|c: int| 0 <= c < t ==> #[trigger] order@[c] == ranked@[c].slot,
        decreases m - t,
    {
        order.push(ranked[t].slot);
        t += 1;
    }
    proof {
        assert forall|a: int, b: int| 0 <= a < b < order.len() implies data@[(
        #[trigger] order@[a]) as int].spec_lt(data@[(#[trigger] order@[b]) as int]) by {
            let ka = ranked@[a];
            let kb = ranked@[b];
            assert(ka.spec_lt(kb));
            if ka.k0 == kb.k0 && ka.k1 == kb.k1 {
                // two first positions of one id
                assert(data@[ka.slot as int].id == data@[kb.slot as int].id);
                assert(ka.slot < kb.slot);
            }
        }
        assert forall|p: int| 0 <= p < data@.len() && is_first_of_id(data@, p) implies exists|
            t: int,
        | 0 <= t < order.len() && #[trigger] order@[t] == p by {
            let kp = id_key(data@, p);
            assert(by_id@[p] == kp);
            assert(by_id@.contains(kp));
            assert(sorted_ids@.contains(kp));
            let c = choose|c: int| 0 <= c < n && sorted_ids@[c] == kp;
            assert(sorted_ids@[c].slot == p);
            let x = datum_key(data@, p);
            assert(firsts@.contains(x));
            assert(ranked@.contains(x));
            let t = choose|t: int| 0 <= t < ranked@.len() && ranked@[t] == x;
            assert(order@[t] == p);
        }
        assert(is_selection_slots(order@, data@));
        let ints = positions(order@);
        assert forall|p: int| 0 <= p < data@.len() && is_first_of_id(data@, p) implies exists|
            t: int,
        | 0 <= t < ints.len() && #[trigger] ints[t] == p by {
            let t = choose|t: int| 0 <= t < order@.len() && #[trigger] order@[t] == p;
            assert(ints[t] == p);
        }
    }
    order
}

/// Two selections from the same data are the same.
pub proof fn lemma_selection_order_unique(a: Seq<int>, b: Seq<int>, data: Seq<NodeDatum>)
    requires
        is_selection_order(a, data),
        is_selection_order(b, data),
    ensures
        a == b,
{
    if a.len() == 0 {
        if b.len() > 0 {
            let p = b[0];
            let t = choose|t: int| 0 <= t < a.len() && #[trigger] a[t] == p;
        }
        assert(a =~= b);
    } else if b.len() == 0 {
        let p = a[0];
        let t = choose|t: int| 0 <= t < b.len() && #[trigger] b[t] == p;
    } else {
        // the last positions agree: both carry the greatest datum
        let la = a[a.len() - 1];
        let lb = b[b.len() - 1];
        let ta = choose|t: int| 0 <= t < b.len() && #[trigger] b[t] == la;
        let tb = choose|t: int| 0 <= t < a.len() && #[trigger] a[t] == lb;
        if ta < b.len() - 1 {
            assert(data[b[ta]].spec_lt(data[b[b.len() - 1]]));
        }
        if tb < a.len() - 1 {
            assert(data[a[tb]].spec_lt(data[a[a.len() - 1]]));
        }
        assert(la == lb);
        let a2 = a.drop_last();
        let b2 = b.drop_last();
        let top = data[la];
        assert(is_selection_upto(a2, data, top)) by {
            assert forall|p: int|
                0 <= p < data.len() && is_first_of_id(data, p) && data[p].spec_lt(top) implies exists|
                t: int,
            | 0 <= t < a2.len() && #[trigger] a2[t] == p by {
                let t = choose|t: int| 0 <= t < a.len() && #[trigger] a[t] == p;
                assert(a2[t] == p);
            }
            assert forall|t: int| 0 <= t < a2.len() implies data[#[trigger] a2[t]].spec_lt(
                top,
            ) by {
                assert(data[a[t]].spec_lt(data[a[a.len() - 1]]));
            }
        }
        assert(is_selection_upto(b2, data, top)) by {
            assert forall|p: int|
                0 <= p < data.len() && is_first_of_id(data, p) && data[p].spec_lt(top) implies exists|
                t: int,
            | 0 <= t < b2.len() && #[trigger] b2[t] == p by {
                let t = choose|t: int| 0 <= t < b.len() && #[trigger] b[t] == p;
                assert(b2[t] == p);
            }
            assert forall|t: int| 0 <= t < b2.len() implies data[#[trigger] b2[t]].spec_lt(
                top,
            ) by {
                assert(data[b[t]].spec_lt(data[b[b.len() - 1]]));
            }
        }
        lemma_selection_upto_unique(a2, b2, data, top);
        assert(a =~= a2.push(la));
        assert(b =~= b2.push(lb));
    }
}

/// As `is_selection_order`, for the positions whose data lie below `bound`.
pub open spec fn is_selection_upto(order: Seq<int>, data: Seq<NodeDatum>, bound: NodeDatum) -> bool {
    &&& forall|t: int| 0 <= t < order.len() ==> 0 <= (#[trigger] order[t]) < data.len()
    &&& forall|t: int| 0 <= t < order.len() ==> is_first_of_id(data, #[trigger] order[t])
    &&& forall|t: int| 0 <= t < order.len() ==> data[#[trigger] order[t]].spec_lt(bound)
    &&& forall|a: int, b: int|
        0 <= a < b < order.len() ==> data[#[trigger] order[a]].spec_lt(
            data[#[trigger] order[b]],
        )
    &&& forall|p: int|
        0 <= p < data.len() && is_first_of_id(data, p) && data[p].spec_lt(bound) ==> exists|t: int|
            0 <= t < order.len() && #[trigger] order[t] == p
}

/// Two selections below one bound from the same data are the same.
pub proof fn lemma_selection_upto_unique(
    a: Seq<int>,
    b: Seq<int>,
    data: Seq<NodeDatum>,
    bound: NodeDatum,
)
    requires
        is_selection_upto(a, data, bound),
        is_selection_upto(b, data, bound),
    ensures
        a == b,
    decreases a.len() + b.len(),
{
    if a.len() == 0 {
        if b.len() > 0 {
            let p = b[0];
            let t = choose|t: int| 0 <= t < a.len() && #[trigger] a[t] == p;
        }
        assert(a =~= b);
    } else if b.len() == 0 {
        let p = a[0];
        let t = choose|t: int| 0 <= t < b.len() && #[trigger] b[t] == p;
    } else {
        let la = a[a.len() - 1];
        let lb = b[b.len() - 1];
        let ta = choose|t: int| 0 <= t < b.len() && #[trigger] b[t] == la;
        let tb = choose|t: int| 0 <= t < a.len() && #[trigger] a[t] == lb;
        if ta < b.len() - 1 {
            assert(data[b[ta]].spec_lt(data[b[b.len() - 1]]));
        }
        if tb < a.len() - 1 {
            assert(data[a[tb]].spec_lt(data[a[a.len() - 1]]));
        }
        assert(la == lb);
        let a2 = a.drop_last();
        let b2 = b.drop_last();
        let top = data[la];
        assert(is_selection_upto(a2, data, top)) by {
            assert forall|p: int|
                0 <= p < data.len() && is_first_of_id(data, p) && data[p].spec_lt(top) implies exists|
                t: int,
            | 0 <= t < a2.len() && #[trigger] a2[t] == p by {
                let t = choose|t: int| 0 <= t < a.len() && #[trigger] a[t] == p;
                assert(a2[t] == p);
            }
            assert forall|t: int| 0 <= t < a2.len() implies data[#[trigger] a2[t]].spec_lt(
                top,
            ) by {
                assert(data[a[t]].spec_lt(data[a[a.len() - 1]]));
            }
        }
        assert(is_selection_upto(b2, data, top)) by {
            assert forall|p: int|
                0 <= p < data.len() && is_first_of_id(data, p) && data[p].spec_lt(top) implies exists|
                t: int,
            | 0 <= t < b2.len() && #[trigger] b2[t] == p by {
                let t = choose|t: int| 0 <= t < b.len() && #[trigger] b[t] == p;
                assert(b2[t] == p);
            }
            assert forall|t: int| 0 <= t < b2.len() implies data[#[trigger] b2[t]].spec_lt(
                top,
            ) by {
                assert(data[b[t]].spec_lt(data[b[b.len() - 1]]));
            }
        }
        lemma_selection_upto_unique(a2, b2, data, top);
        assert(a =~= a2.push(la));
        assert(b =~= b2.push(lb));
    }
}

} // verus!

verus! {

/// Where a position with the datum `d` belongs in `order`: behind the
/// positions whose data lie below `d`.
proof fn lemma_find_slot(order: Seq<int>, data: Seq<NodeDatum>, d: NodeDatum) -> (c: int)
    requires
        forall|t: int| 0 <= t < order.len() ==> 0 <= (#[trigger] order[t]) < data.len(),
        forall|a: int, b: int|
            0 <= a < b < order.len() ==> data[#[trigger] order[a]].spec_lt(
                data[#[trigger] order[b]],
            ),
    ensures
        0 <= c <= order.len(),
        forall|t: int| 0 <= t < c ==> data[#[trigger] order[t]].spec_lt(d),
        forall|t: int| c <= t < order.len() ==> !data[#[trigger] order[t]].spec_lt(d),
    decreases order.len(),
{
    if order.len() == 0 {
        0
    } else if data[order.last()].spec_lt(d) {
        assert forall|t: int| 0 <= t < order.len() implies data[#[trigger] order[t]].spec_lt(
            d,
        ) by {
            if t < order.len() - 1 {
                assert(data[order[t]].spec_lt(data[order[order.len() - 1]]));
            }
        }
        order.len() as int
    } else {
        let c = lemma_find_slot(order.drop_last(), data, d);
        assert forall|t: int| c <= t < order.len() implies !data[#[trigger] order[t]].spec_lt(
            d,
        ) by {
            if t < order.len() - 1 {
                assert(order.drop_last()[t] == order[t]);
            }
        }
        assert forall|t: int| 0 <= t < c implies data[#[trigger] order[t]].spec_lt(d) by {
            assert(order.drop_last()[t] == order[t]);
        }
        c
    }
}

/// Every sequence of data has a selection.
pub proof fn lemma_selection_exists(data: Seq<NodeDatum>) -> (order: Seq<int>)
    ensures
        is_selection_order(order, data),
    decreases data.len(),
{
    if data.len() == 0 {
        Seq::empty()
    } else {
        let p = data.len() - 1;
        let short = data.drop_last();
        let prev = lemma_selection_exists(short);
        assert forall|q: int| 0 <= q < p implies is_first_of_id(short, q) == is_first_of_id(
            data,
            q,
        ) by {
            if is_first_of_id(short, q) {
                assert forall|r: int| 0 <= r < q implies (#[trigger] data[r]).id != data[q].id by {
                    assert(short[r].id != short[q].id);
                }
            }
            if is_first_of_id(data, q) {
                assert forall|r: int| 0 <= r < q implies (#[trigger] short[r]).id != short[q].id by {
                    assert(data[r].id != data[q].id);
                }
            }
        }
        assert forall|t: int| 0 <= t < prev.len() implies data[#[trigger] prev[t]]
            == short[prev[t]] by {}
        if !is_first_of_id(data, p) {
            assert forall|q: int| 0 <= q < data.len() && is_first_of_id(data, q) implies exists|
                t: int,
            | 0 <= t < prev.len() && #[trigger] prev[t] == q by {
                assert(is_first_of_id(short, q));
            }
            assert forall|a: int, b: int| 0 <= a < b < prev.len() implies data[#[trigger] prev[a]].spec_lt(data[#[trigger] prev[b]]) by {
                assert(short[prev[a]].spec_lt(short[prev[b]]));
            }
            prev
        } else {
            let d = data[p];
            assert forall|a: int, b: int| 0 <= a < b < prev.len() implies data[#[trigger] prev[a]].spec_lt(data[#[trigger] prev[b]]) by {
                assert(short[prev[a]].spec_lt(short[prev[b]]));
            }
            let c = lemma_find_slot(prev, data, d);
            let order = prev.insert(c, p);
            assert forall|t: int| 0 <= t < order.len() implies 0 <= (#[trigger] order[t]) < data.len()
                && is_first_of_id(data, order[t]) by {
                if t < c {
                    assert(order[t] == prev[t]);
                } else if t > c {
                    assert(order[t] == prev[t - 1]);
                }
            }
            assert forall|a: int, b: int| 0 <= a < b < order.len() implies data[#[trigger] order[a]].spec_lt(data[#[trigger] order[b]]) by {
                if a < c {
                    assert(order[a] == prev[a]);
                } else if a > c {
                    assert(order[a] == prev[a - 1]);
                }
                if b < c {
                    assert(order[b] == prev[b]);
                } else if b > c {
                    assert(order[b] == prev[b - 1]);
                    // a position before `p` with another id: its datum differs
                    assert(data[prev[b - 1]].id != d.id);
                    assert(!data[prev[b - 1]].spec_lt(d));
                }
                if a < c && b > c {
                    assert(data[prev[a]].spec_lt(data[prev[b - 1]]));
                }
                if a > c && b > c {
                    assert(data[prev[a - 1]].spec_lt(data[prev[b - 1]]));
                }
            }
            assert forall|q: int| 0 <= q < data.len() && is_first_of_id(data, q) implies exists|
                t: int,
            | 0 <= t < order.len() && #[trigger] order[t] == q by {
                if q == p {
                    assert(order[c] == q);
                } else {
                    assert(is_first_of_id(short, q));
                    let t = choose|t: int| 0 <= t < prev.len() && #[trigger] prev[t] == q;
                    if t < c {
                        assert(order[t] == q);
                    } else {
                        assert(order[t + 1] == q);
                    }
                }
            }
            order
        }
    }
}

/// The selection from `data`: for each node id the position of its first
/// datum, the positions listed in the rising order of their data.
pub open spec fn selection_order(data: Seq<NodeDatum>) -> Seq<int> {
    choose|order: Seq<int>| is_selection_order(order, data)
}

/// `selection_order` is a selection.
pub proof fn lemma_selection_order(data: Seq<NodeDatum>)
    ensures
        is_selection_order(selection_order(data), data),
{
    let order = lemma_selection_exists(data);
}

} // verus!

verus! {

/// Some of the first `n` keys has `x` as its first part.
pub open spec fn has_k0(s: Seq<SortKey>, n: int, x: u64) -> bool {
    exists|c: int| 0 <= c < n && (#[trigger] s[c]).k0 == x
}

/// The numbers of `ids` in rising order, each once.
pub fn sorted_distinct(ids: &Vec<u64>) -> (out: Vec<u64>)
    ensures
        forall|a: int, b: int| 0 <= a < b < out.len() ==> #[trigger] out[a] < #[trigger] out[b],
        forall|x: u64| out@.contains(x) <==> ids@.contains(x),
{
    let n = ids.len();
    let mut keys: Vec<SortKey> = Vec::new();
    let mut p: usize = 0;
    while p < n
        invariant
            p <= n,
            n == ids.len(),
            keys.len() == p,
            forall|q: int|
                0 <= q < p ==> #[trigger] keys@[q] == (SortKey {
                    k0: ids@[q],
                    k1: 0,
                    k2: 0,
                    slot: q as usize,
                }),
        decreases n - p,
    {
        keys.push(SortKey::new(ids[p], 0, 0, p));
        p += 1;
    }
    let sorted = sort_keys(&keys);
    proof {
        assert forall|a: int| 0 <= a < sorted.len() implies ids@.contains((#[trigger] sorted@[a]).k0) by {
            assert(sorted@.contains(sorted@[a]));
            assert(keys@.contains(sorted@[a]));
            let q = choose|q: int| 0 <= q < keys@.len() && keys@[q] == sorted@[a];
            assert(ids@[q] == sorted@[a].k0);
        }
        assert forall|x: u64| ids@.contains(x) implies exists|a: int|
            0 <= a < sorted.len() && (#[trigger] sorted@[a]).k0 == x by {
            let q = choose|q: int| 0 <= q < ids@.len() && ids@[q] == x;
            assert(keys@.contains(keys@[q]));
            assert(sorted@.contains(keys@[q]));
            let a = choose|a: int| 0 <= a < sorted@.len() && sorted@[a] == keys@[q];
            assert(sorted@[a].k0 == x);
        }
    }
    let mut out: Vec<u64> = Vec::new();
    let mut a: usize = 0;
    while a < n
        invariant
            a <= n,
            n == sorted.len(),
            keys_sorted(sorted@),
            forall|c: int, d: int| 0 <= c < d < out.len() ==> #[trigger] out[c] < #[trigger] out[d],
            forall|c: int| 0 <= c < a ==> out@.contains((#[trigger] sorted@[c]).k0),
            forall|t: int| 0 <= t < out.len() ==> has_k0(sorted@, a as int, #[trigger] out[t]),
            a > 0 ==> out.len() > 0 && out[out.len() - 1] == sorted@[a - 1].k0,
        decreases n - a,
    {
        let x = sorted[a].k0;
        let ghost before = out@;
        if a == 0 || sorted[a - 1].k0 != x {
            proof {
                if a > 0 {
                    assert(sorted@[a - 1].spec_le(sorted@[a as int]));
                }
            }
            out.push(x);
            proof {
                assert forall|c: int, d: int| 0 <= c < d < out.len() implies #[trigger] out[c]
                    < #[trigger] out[d] by {
                    if d == before.len() && c < before.len() - 1 {
                        assert(before[c] < before[before.len() - 1]);
                    }
                }
                assert forall|c: int| 0 <= c < a + 1 implies out@.contains(
                    (#[trigger] sorted@[c]).k0,
                ) by {
                    if c < a {
                        let t = choose|t: int| 0 <= t < before.len() && before[t] == sorted@[c].k0;
                        assert(out@[t] == sorted@[c].k0);
                    } else {
                        assert(out@[out.len() - 1] == x);
                    }
                }
                assert forall|t: int| 0 <= t < out.len() implies has_k0(
                    sorted@,
                    a + 1,
                    #[trigger] out[t],
                ) by {
                    if t < before.len() {
                        assert(has_k0(sorted@, a as int, before[t]));
                        let c = choose|c: int| 0 <= c < a && (#[trigger] sorted@[c]).k0 == before[t];
                        assert(sorted@[c].k0 == out[t]);
                    } else {
                        assert(sorted@[a as int].k0 == out[t]);
                    }
                }
            }
        } else {
            proof {
                assert forall|c: int| 0 <= c < a + 1 implies out@.contains(
                    (#[trigger] sorted@[c]).k0,
                ) by {
                    if c == a {
                        assert(out@[out.len() - 1] == x);
                    }
                }
                assert forall|t: int| 0 <= t < out.len() implies has_k0(
                    sorted@,
                    a + 1,
                    #[trigger] out[t],
                ) by {
                    assert(has_k0(sorted@, a as int, out[t]));
                    let c = choose|c: int| 0 <= c < a && (#[trigger] sorted@[c]).k0 == out[t];
                    assert(sorted@[c].k0 == out[t]);
                }
            }
        }
        a += 1;
    }
    proof {
        assert forall|x: u64| out@.contains(x) <==> ids@.contains(x) by {
            if out@.contains(x) {
                let t = choose|t: int| 0 <= t < out@.len() && out@[t] == x;
                assert(has_k0(sorted@, n as int, out[t]));
                let c = choose|c: int| 0 <= c < n && (#[trigger] sorted@[c]).k0 == out[t];
                assert(ids@.contains(sorted@[c].k0));
            }
            if ids@.contains(x) {
                let c = choose|c: int| 0 <= c < sorted.len() && (#[trigger] sorted@[c]).k0 == x;
                assert(out@.contains(sorted@[c].k0));
            }
        }
    }
    out
}

} // verus!
