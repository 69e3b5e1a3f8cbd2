//! The k-way merge that both merge iterators are built on.
//!
//! A `KWay` holds k inputs and a heap with the key of each input's head. One
//! step takes, from every input, the leading run of items that carry the least
//! head key.

use crate::heap::{is_least, MinHeap, SortKey};
use std::collections::VecDeque;
use vstd::multiset::Multiset;
use vstd::prelude::*;

verus! {

/// An item that is merged by a two-part key.
pub trait MergeKey {
    spec fn spec_key(&self) -> (u64, u64);

    fn key(&self) -> (k: (u64, u64))
        ensures
            k == self.spec_key(),
    ;
}

/// `a` comes before `b`: by the first part, then by the second.
pub open spec fn key_lt(a: (u64, u64), b: (u64, u64)) -> bool {
    a.0 < b.0 || (a.0 == b.0 && a.1 < b.1)
}

/// `a` comes before `b` or is `b`.
pub open spec fn key_le(a: (u64, u64), b: (u64, u64)) -> bool {
    a == b || key_lt(a, b)
}

/// Some input still has an item.
pub open spec fn has_live<T>(s: Seq<Seq<T>>) -> bool {
    exists|i: int| 0 <= i < s.len() && (#[trigger] s[i]).len() > 0
}

/// `m` is the key of some input's head, and no head has a smaller key.
pub open spec fn is_least_head<T: MergeKey>(s: Seq<Seq<T>>, m: (u64, u64)) -> bool {
    &&& exists|i: int| 0 <= i < s.len() && (#[trigger] s[i]).len() > 0 && s[i][0].spec_key() == m
    &&& forall|j: int|
        0 <= j < s.len() && (#[trigger] s[j]).len() > 0 ==> key_le(m, s[j][0].spec_key())
}

/// The least key among the heads of the inputs.
pub open spec fn least_key<T: MergeKey>(s: Seq<Seq<T>>) -> (u64, u64) {
    choose|m: (u64, u64)| is_least_head(s, m)
}

/// How many items at the front of `s` carry the key `m`.
pub open spec fn run_len<T: MergeKey>(s: Seq<T>, m: (u64, u64)) -> nat
    decreases s.len(),
{
    if s.len() > 0 && s[0].spec_key() == m {
        1 + run_len(s.drop_first(), m)
    } else {
        0
    }
}

/// The inputs after each has lost its leading run of items with key `m`.
pub open spec fn drained<T: MergeKey>(s: Seq<Seq<T>>, m: (u64, u64)) -> Seq<Seq<T>> {
    Seq::new(s.len(), |i: int| s[i].skip(run_len(s[i], m) as int))
}

/// The leading runs with key `m` of the first `n` inputs, in the order of the inputs.
pub open spec fn group_upto<T: MergeKey>(s: Seq<Seq<T>>, m: (u64, u64), n: nat) -> Seq<T>
    decreases n,
{
    if n == 0 {
        Seq::empty()
    } else {
        group_upto(s, m, (n - 1) as nat) + s[n - 1].take(run_len(s[n - 1], m) as int)
    }
}

/// The leading runs with key `m` of all the inputs, in the order of the inputs.
pub open spec fn group<T: MergeKey>(s: Seq<Seq<T>>, m: (u64, u64)) -> Seq<T> {
    group_upto(s, m, s.len())
}

/// No two keys are the least head key.
pub proof fn lemma_least_head_unique<T: MergeKey>(s: Seq<Seq<T>>, a: (u64, u64), b: (u64, u64))
    requires
        is_least_head(s, a),
        is_least_head(s, b),
    ensures
        a == b,
{
    let i = choose|i: int| 0 <= i < s.len() && (#[trigger] s[i]).len() > 0 && s[i][0].spec_key() == a;
    let j = choose|j: int| 0 <= j < s.len() && (#[trigger] s[j]).len() > 0 && s[j][0].spec_key() == b;
    assert(key_le(a, s[j][0].spec_key()));
    assert(key_le(b, s[i][0].spec_key()));
}

/// A key that is the least head key is `least_key`.
pub proof fn lemma_least_key<T: MergeKey>(s: Seq<Seq<T>>, m: (u64, u64))
    requires
        is_least_head(s, m),
    ensures
        least_key(s) == m,
{
    lemma_least_head_unique(s, m, least_key(s));
}

/// `c` is the length of the leading run with key `m` exactly when the first
/// `c` items carry `m` and the next one, if there is one, does not.
pub proof fn lemma_run_len_is<T: MergeKey>(s: Seq<T>, m: (u64, u64), c: int)
    requires
        0 <= c <= s.len(),
        forall|j: int| 0 <= j < c ==> (#[trigger] s[j]).spec_key() == m,
        c < s.len() ==> s[c].spec_key() != m,
    ensures
        run_len(s, m) == c,
    decreases s.len(),
{
    if c > 0 {
        let t = s.drop_first();
        assert forall|j: int| 0 <= j < c - 1 implies (#[trigger] t[j]).spec_key() == m by {
            assert(t[j] == s[j + 1]);
        }
        if c - 1 < t.len() {
            assert(t[c - 1] == s[c]);
        }
        lemma_run_len_is(t, m, c - 1);
    }
}

/// The leading run lies within the input, holds the key only, and ends before
/// an item with another key.
pub proof fn lemma_run_len_bounds<T: MergeKey>(s: Seq<T>, m: (u64, u64))
    ensures
        run_len(s, m) <= s.len(),
        forall|j: int| 0 <= j < run_len(s, m) ==> (#[trigger] s[j]).spec_key() == m,
        run_len(s, m) < s.len() ==> s[run_len(s, m) as int].spec_key() != m,
    decreases s.len(),
{
    if s.len() > 0 && s[0].spec_key() == m {
        let t = s.drop_first();
        lemma_run_len_bounds(t, m);
        assert forall|j: int| 0 <= j < run_len(s, m) implies (#[trigger] s[j]).spec_key() == m by {
            if j > 0 {
                assert(s[j] == t[j - 1]);
            }
        }
        if run_len(s, m) < s.len() {
            assert(s[run_len(s, m) as int] == t[run_len(t, m) as int]);
        }
    }
}

/// Inputs without a run contribute nothing to the group.
pub proof fn lemma_group_skips_empty_runs<T: MergeKey>(s: Seq<Seq<T>>, m: (u64, u64), a: nat, b: nat)
    requires
        a <= b <= s.len(),
        forall|i: int| a <= i < b ==> run_len(#[trigger] s[i], m) == 0,
    ensures
        group_upto(s, m, b) == group_upto(s, m, a),
    decreases b,
{
    if a < b {
        lemma_group_skips_empty_runs(s, m, a, (b - 1) as nat);
        assert(run_len(s[b - 1], m) == 0);
        assert(s[b - 1].take(0) =~= Seq::<T>::empty());
        assert(group_upto(s, m, b) =~= group_upto(s, m, (b - 1) as nat));
    }
}

/// How often the heap must hold `k` for the inputs `s`: once if `k` is the key
/// of the head of the input that `k.slot` names, else never.
pub open spec fn head_count<T: MergeKey>(s: Seq<Seq<T>>, k: SortKey) -> nat {
    if k.slot < s.len() && s[k.slot as int].len() > 0 && k.k2 == 0 && (k.k0, k.k1)
        == s[k.slot as int][0].spec_key() {
        1
    } else {
        0
    }
}

/// The heap holds the head keys of `s`, but none for the slots in `out`.
pub open spec fn heads_match<T: MergeKey>(
    s: Seq<Seq<T>>,
    heap: Multiset<SortKey>,
    out: Seq<usize>,
) -> bool {
    forall|k: SortKey|
        #[trigger] heap.count(k) == if out.contains(k.slot) {
            0
        } else {
            head_count(s, k)
        }
}

/// What the queues hold.
pub open spec fn views<T>(d: Seq<VecDeque<T>>) -> Seq<Seq<T>> {
    Seq::new(d.len(), |i: int| d[i]@)
}

/// What the vectors hold.
pub open spec fn vec_views<T>(d: Seq<Vec<T>>) -> Seq<Seq<T>> {
    Seq::new(d.len(), |i: int| d[i]@)
}

/// The slots rise strictly.
pub open spec fn increasing(slots: Seq<usize>) -> bool {
    forall|a: int, b: int| 0 <= a < b < slots.len() ==> slots[a] < slots[b]
}

/// A k-way merge in progress. Its view is what is left of each input.
pub struct KWay<T: MergeKey> {
    inputs: Vec<VecDeque<T>>,
    heap: MinHeap,
}

impl<T: MergeKey> View for KWay<T> {
    type V = Seq<Seq<T>>;

    closed spec fn view(&self) -> Seq<Seq<T>> {
        views(self.inputs@)
    }
}

/// Moves the items of `v` into a queue, in their order.
fn into_queue<T>(v: Vec<T>) -> (q: VecDeque<T>)
    ensures
        q@ == v@,
{
    let mut v = v;
    let mut q: VecDeque<T> = VecDeque::new();
    let ghost all = v@;
    while v.len() > 0
        invariant
            v@ + q@ == all,
        decreases v.len(),
    {
        let ghost before = v@;
        let item = v.pop().unwrap();
        q.push_front(item);
        assert(v@ + q@ =~= all) by {
            assert(before =~= v@ + seq![item]);
        }
    }
    assert(q@ =~= all);
    q
}

impl<T: MergeKey> KWay<T> {
    /// The heap holds the key of each input's head.
    pub closed spec fn wf(&self) -> bool {
        &&& self.heap.wf()
        &&& heads_match(self@, self.heap@, Seq::<usize>::empty())
    }

    /// Starts a merge of `inputs`.
    pub fn new(inputs: Vec<Vec<T>>) -> (res: KWay<T>)
        ensures
            res.wf(),
            res@ == vec_views(inputs@),
    {
        let mut inputs = inputs;
        let ghost all = vec_views(inputs@);
        let n = inputs.len();
        let mut queues: Vec<VecDeque<T>> = Vec::new();
        let mut heap = MinHeap::new();
        let mut i: usize = 0;
        while i < n
            invariant
                i <= n,
                n == inputs.len(),
                n == all.len(),
                queues.len() == i,
                forall|j: int| 0 <= j < i ==> (#[trigger] queues@[j])@ == all[j],
                forall|j: int| i <= j < n ==> (#[trigger] inputs@[j])@ == all[j],
                heap.wf(),
                heads_match(views(queues@), heap@, Seq::<usize>::empty()),
            decreases n - i,
        {
            let mut taken: Vec<T> = Vec::new();
            std::mem::swap(&mut inputs[i], &mut taken);
            let q = into_queue(taken);
            let ghost before = views(queues@);
            let ghost heap_before = heap@;
            if q.len() > 0 {
                let k = q[0].key();
                heap.push(SortKey::new(k.0, k.1, 0, i));
            }
            queues.push(q);
            proof {
                let after = views(queues@);
                assert forall|k: SortKey|
                    #[trigger] heap@.count(k) == if Seq::<usize>::empty().contains(k.slot) {
                        0
                    } else {
                        head_count(after, k)
                    } by {
                    assert(heap_before.count(k) == head_count(before, k));
                    if k.slot < i {
                        assert(after[k.slot as int] == before[k.slot as int]);
                    }
                }
            }
            i += 1;
        }
        let res = KWay { inputs: queues, heap };
        assert(res@ =~= all);
        res
    }

    /// Takes out of the heap every key that equals `m`, and returns their slots.
    fn take_least_slots(&mut self, m: (u64, u64)) -> (slots: Vec<usize>)
        requires
            old(self).wf(),
            is_least_head(old(self)@, m),
        ensures
            final(self)@ == old(self)@,
            final(self).heap.wf(),
            heads_match(final(self)@, final(self).heap@, slots@),
            increasing(slots@),
            forall|a: int| 0 <= a < slots.len() ==> (#[trigger] slots[a]) < final(self)@.len(),
            forall|i: int|
                0 <= i < final(self)@.len() ==> (slots@.contains(i as usize) <==> (
                #[trigger] final(self)@[i]).len() > 0 && final(self)@[i][0].spec_key() == m),
    {
        let ghost s = self@;
        let ghost full = self.heap@;
        let n = self.inputs.len();
        let mut slots: Vec<usize> = Vec::new();
        loop
            invariant_except_break
                forall|k: SortKey|
                    self.heap@.count(k) > 0 && (k.k0, k.k1) == m ==> forall|a: int|
                        0 <= a < slots.len() ==> slots[a] < k.slot,
            invariant
                self@ == s,
                s == old(self)@,
                s.len() == n,
                self.heap.wf(),
                is_least_head(s, m),
                heads_match(s, full, Seq::<usize>::empty()),
                heads_match(s, self.heap@, slots@),
                increasing(slots@),
                forall|a: int|
                    0 <= a < slots.len() ==> (#[trigger] slots[a]) < s.len() && s[slots[a] as int].len()
                        > 0 && s[slots[a] as int][0].spec_key() == m,
            ensures
                forall|k: SortKey| self.heap@.count(k) > 0 ==> (k.k0, k.k1) != m,
            decreases self.heap@.len(),
        {
            let top = self.heap.peek();
            let ghost before = self.heap@;
            match top {
                Some(k) if k.k0 == m.0 && k.k1 == m.1 => {
                    let popped = self.heap.pop();
                    assert(popped == Some(k)) by {
                        let p = popped->0;
                        assert(is_least(before, p));
                        assert(is_least(before, k));
                        assert(p.spec_le(k) && k.spec_le(p));
                    }
                    assert(before.count(k) == 1);
                    assert(head_count(s, k) == 1);
                    let ghost old_slots = slots@;
                    slots.push(k.slot);
                    proof {
                        assert forall|x: SortKey|
                            #[trigger] self.heap@.count(x) == if slots@.contains(x.slot) {
                                0
                            } else {
                                head_count(s, x)
                            } by {
                            assert(before.count(x) == if old_slots.contains(x.slot) {
                                0
                            } else {
                                head_count(s, x)
                            });
                            if x.slot == k.slot {
                                assert(slots@[slots@.len() - 1] == x.slot);
                                if head_count(s, x) == 1 {
                                    assert(x == k);
                                }
                            } else {
                                if slots@.contains(x.slot) {
                                    let a = choose|a: int|
                                        0 <= a < slots@.len() && slots@[a] == x.slot;
                                    assert(old_slots[a] == x.slot);
                                }
                                if old_slots.contains(x.slot) {
                                    let a = choose|a: int|
                                        0 <= a < old_slots.len() && old_slots[a] == x.slot;
                                    assert(slots@[a] == x.slot);
                                }
                            }
                        }
                        assert forall|x: SortKey|
                            self.heap@.count(x) > 0 && (x.k0, x.k1) == m implies forall|a: int|
                            0 <= a < slots.len() ==> slots[a] < x.slot by {
                            assert(before.count(x) > 0);
                            assert(k.spec_le(x));
                            assert(head_count(s, x) == 1);
                            assert(x != k);
                        }
                    }
                },
                _ => {
                    proof {
                        assert forall|x: SortKey| self.heap@.count(x) > 0 implies (x.k0, x.k1)
                            != m by {
                            if (x.k0, x.k1) == m {
                                let t = top->0;
                                assert(is_least(before, t));
                                assert(t.spec_le(x));
                                let i = choose|i: int|
                                    0 <= i < s.len() && (#[trigger] s[i]).len() > 0
                                        && s[i][0].spec_key() == m;
                                assert(head_count(s, t) == 1);
                                assert(s[t.slot as int].len() > 0);
                                assert(key_le(m, s[t.slot as int][0].spec_key()));
                            }
                        }
                    }
                    break ;
                },
            }
        }
        proof {
            assert forall|i: int| 0 <= i < s.len() implies (slots@.contains(i as usize) <==> (
            #[trigger] s[i]).len() > 0 && s[i][0].spec_key() == m) by {
                if s[i].len() > 0 && s[i][0].spec_key() == m {
                    let k = SortKey { k0: m.0, k1: m.1, k2: 0, slot: i as usize };
                    assert(head_count(s, k) == 1);
                    assert(self.heap@.count(k) == 0);
                }
                if slots@.contains(i as usize) {
                    let a = choose|a: int| 0 <= a < slots@.len() && slots@[a] == i as usize;
                    assert(s[slots[a] as int].len() > 0);
                }
            }
        }
        slots
    }

    /// Moves the leading run with key `m` of the input `slot` to the end of `buf`.
    fn drain_run(&mut self, slot: usize, m: (u64, u64), buf: &mut Vec<T>)
        requires
            slot < old(self)@.len(),
        ensures
            final(self).heap == old(self).heap,
            final(self)@ == old(self)@.update(
                slot as int,
                old(self)@[slot as int].skip(run_len(old(self)@[slot as int], m) as int),
            ),
            final(buf)@ == old(buf)@ + old(self)@[slot as int].take(
                run_len(old(self)@[slot as int], m) as int,
            ),
    {
        let ghost s = self@;
        let ghost input = s[slot as int];
        let ghost c: int = 0;
        assert(self.inputs@[slot as int]@ == input);
        loop
            invariant_except_break
                self.inputs@[slot as int]@ == input.skip(c),
                buf@ == old(buf)@ + input.take(c),
            invariant
                self.heap == old(self).heap,
                self.inputs.len() == s.len(),
                slot < s.len(),
                s == old(self)@,
                input == s[slot as int],
                0 <= c <= input.len(),
                forall|j: int| 0 <= j < c ==> (#[trigger] input[j]).spec_key() == m,
                forall|i: int|
                    0 <= i < s.len() && i != slot ==> (#[trigger] self.inputs@[i])@ == s[i],
            ensures
                self.inputs@[slot as int]@ == input.skip(run_len(input, m) as int),
                buf@ == old(buf)@ + input.take(run_len(input, m) as int),
            decreases input.len() - c,
        {
            if self.inputs[slot].len() == 0 {
                proof {
                    lemma_run_len_is(input, m, c);
                }
                break ;
            }
            let k = self.inputs[slot][0].key();
            assert(input.skip(c)[0] == input[c]);
            if k.0 != m.0 || k.1 != m.1 {
                proof {
                    lemma_run_len_is(input, m, c);
                }
                break ;
            }
            let ghost queues_before = self.inputs@;
            let item = self.inputs[slot].pop_front().unwrap();
            buf.push(item);
            proof {
                assert(self.inputs@[slot as int]@ =~= input.skip(c + 1));
                assert(input.take(c + 1) =~= input.take(c).push(input[c]));
                assert(buf@ =~= old(buf)@ + input.take(c + 1));
                assert forall|i: int| 0 <= i < s.len() && i != slot implies (
                #[trigger] self.inputs@[i])@ == s[i] by {
                    assert(self.inputs@[i] == queues_before[i]);
                }
                c = c + 1;
            }
        }
        assert(self@ =~= old(self)@.update(
            slot as int,
            old(self)@[slot as int].skip(run_len(old(self)@[slot as int], m) as int),
        ));
    }

    /// One step of the merge.
    ///
    /// Where an input is left, the least head key `m` is found, every input
    /// loses its leading run of items with key `m`, and these runs are added
    /// to `buf`, in the order of the inputs.
    pub fn next_group(&mut self, buf: &mut Vec<T>) -> (res: bool)
        requires
            old(self).wf(),
        ensures
            final(self).wf(),
            res == has_live(old(self)@),
            !res ==> final(self)@ == old(self)@ && final(buf)@ == old(buf)@,
            res ==> is_least_head(old(self)@, least_key(old(self)@)),
            res ==> final(self)@ == drained(old(self)@, least_key(old(self)@)),
            res ==> final(buf)@ == old(buf)@ + group(old(self)@, least_key(old(self)@)),
    {
        let ghost s = self@;
        let n = self.inputs.len();
        assert(s.len() == n);
        let first = match self.heap.peek() {
            None => {
                proof {
                    if has_live(s) {
                        let i = choose|i: int| 0 <= i < s.len() && (#[trigger] s[i]).len() > 0;
                        let k = SortKey {
                            k0: s[i][0].spec_key().0,
                            k1: s[i][0].spec_key().1,
                            k2: 0,
                            slot: i as usize,
                        };
                        assert(head_count(s, k) == 1);
                        assert(self.heap@.count(k) == 1);
                        assert(self.heap@.len() == 0);
                        assert(self.heap@ =~= Multiset::<SortKey>::empty()) by {
                            vstd::multiset::lemma_multiset_empty_len(self.heap@);
                        }
                    }
                }
                return false;
            },
            Some(k) => k,
        };
        let m = (first.k0, first.k1);
        proof {
            assert(head_count(s, first) == 1);
            assert(s[first.slot as int].len() > 0);
            assert forall|j: int| 0 <= j < s.len() && (#[trigger] s[j]).len() > 0 implies key_le(
                m,
                s[j][0].spec_key(),
            ) by {
                let k = SortKey {
                    k0: s[j][0].spec_key().0,
                    k1: s[j][0].spec_key().1,
                    k2: 0,
                    slot: j as usize,
                };
                assert(head_count(s, k) == 1);
                assert(self.heap@.count(k) == 1);
                assert(first.spec_le(k));
            }
            assert(is_least_head(s, m));
            lemma_least_key(s, m);
        }
        let slots = self.take_least_slots(m);
        proof {
            assert forall|i: int| 0 <= i < s.len() && !slots@.contains(i as usize) implies run_len(
                #[trigger] s[i],
                m,
            ) == 0 by {}
            if slots.len() > 0 {
                lemma_group_skips_empty_runs(s, m, 0, slots[0] as nat);
            } else {
                lemma_group_skips_empty_runs(s, m, 0, n as nat);
            }
            assert(old(buf)@ + Seq::<T>::empty() =~= old(buf)@);
            assert(slots@.skip(0) =~= slots@);
        }
        let mut p: usize = 0;
        while p < slots.len()
            invariant
                p <= slots.len(),
                n == s.len(),
                s == old(self)@,
                self@.len() == n,
                self.heap.wf(),
                increasing(slots@),
                forall|a: int| 0 <= a < slots.len() ==> (#[trigger] slots[a]) < n,
                forall|i: int|
                    0 <= i < n && !slots@.contains(i as usize) ==> run_len(#[trigger] s[i], m)
                        == 0,
                heads_match(self@, self.heap@, slots@.skip(p as int)),
                forall|i: int|
                    0 <= i < n ==> (#[trigger] self@[i]) == if slots@.take(p as int).contains(
                        i as usize,
                    ) {
                        s[i].skip(run_len(s[i], m) as int)
                    } else {
                        s[i]
                    },
                buf@ == old(buf)@ + group_upto(
                    s,
                    m,
                    if p < slots.len() {
                        slots[p as int] as nat
                    } else {
                        n as nat
                    },
                ),
            decreases slots.len() - p,
        {
            let slot = slots[p];
            let ghost before = self@;
            let ghost heap_before = self.heap@;
            assert(!slots@.take(p as int).contains(slot)) by {
                if slots@.take(p as int).contains(slot) {
                    let a = choose|a: int|
                        0 <= a < slots@.take(p as int).len() && slots@.take(p as int)[a] == slot;
                    assert(slots[a] < slots[p as int]);
                }
            }
            assert(before[slot as int] == s[slot as int]);
            self.drain_run(slot, m, buf);
            let ghost mid = self@;
            assert(mid.len() == self.inputs@.len());
            assert(self.inputs@[slot as int]@ == mid[slot as int]);
            if self.inputs[slot].len() > 0 {
                let k = self.inputs[slot][0].key();
                self.heap.push(SortKey::new(k.0, k.1, 0, slot));
            }
            proof {
                let rest = slots@.skip(p as int + 1);
                assert forall|k: SortKey|
                    #[trigger] self.heap@.count(k) == if rest.contains(k.slot) {
                        0
                    } else {
                        head_count(mid, k)
                    } by {
                    assert(heap_before.count(k) == if slots@.skip(p as int).contains(k.slot) {
                        0
                    } else {
                        head_count(before, k)
                    });
                    assert(slots@.skip(p as int)[0] == slot);
                    if k.slot == slot {
                        assert(slots@.skip(p as int).contains(k.slot));
                        if rest.contains(k.slot) {
                            let a = choose|a: int| 0 <= a < rest.len() && rest[a] == k.slot;
                            assert(slots[p as int] < slots[p as int + 1 + a]);
                        }
                    } else {
                        if k.slot < n {
                            assert(mid[k.slot as int] == before[k.slot as int]);
                        }
                        if rest.contains(k.slot) {
                            let a = choose|a: int| 0 <= a < rest.len() && rest[a] == k.slot;
                            assert(slots@.skip(p as int)[a + 1] == k.slot);
                        }
                        if slots@.skip(p as int).contains(k.slot) {
                            let a = choose|a: int|
                                0 <= a < slots@.skip(p as int).len() && slots@.skip(p as int)[a]
                                    == k.slot;
                            assert(a > 0);
                            assert(rest[a - 1] == k.slot);
                        }
                    }
                }
                assert forall|i: int| 0 <= i < n implies (#[trigger] mid[i]) == if slots@.take(
                    p as int + 1,
                ).contains(i as usize) {
                    s[i].skip(run_len(s[i], m) as int)
                } else {
                    s[i]
                } by {
                    let t0 = slots@.take(p as int);
                    let t1 = slots@.take(p as int + 1);
                    assert(t1 =~= t0.push(slot));
                    if i == slot {
                        assert(t1[p as int] == slot);
                    } else {
                        assert(mid[i] == before[i]);
                        if t1.contains(i as usize) {
                            let a = choose|a: int| 0 <= a < t1.len() && t1[a] == i as usize;
                            assert(t0[a] == i as usize);
                        }
                        if t0.contains(i as usize) {
                            let a = choose|a: int| 0 <= a < t0.len() && t0[a] == i as usize;
                            assert(t1[a] == i as usize);
                        }
                    }
                }
                let next: nat = if p + 1 < slots.len() {
                    slots[p as int + 1] as nat
                } else {
                    n as nat
                };
                assert forall|i: int| slot < i < next implies run_len(#[trigger] s[i], m) == 0 by {
                    if slots@.contains(i as usize) {
                        let a = choose|a: int| 0 <= a < slots@.len() && slots@[a] == i as usize;
                        if a <= p {
                            assert(a == p || slots[a] < slots[p as int]);
                        } else {
                            assert(a == p + 1 || slots[p as int + 1] < slots[a]);
                        }
                    }
                }
                lemma_group_skips_empty_runs(s, m, (slot + 1) as nat, next);
                assert(buf@ =~= old(buf)@ + group_upto(s, m, (slot + 1) as nat));
            }
            p += 1;
        }
        proof {
            assert(slots@.skip(p as int) =~= Seq::<usize>::empty());
            assert(slots@.take(p as int) =~= slots@);
            lemma_run_len_bounds_all(s, m);
            assert forall|i: int| 0 <= i < n implies #[trigger] self@[i] == drained(s, m)[i] by {
                if !slots@.contains(i as usize) {
                    assert(s[i].skip(0) =~= s[i]);
                }
            }
            assert(self@ =~= drained(s, m));
        }
        true
    }
}

/// The leading run of every input lies within the input.
pub proof fn lemma_run_len_bounds_all<T: MergeKey>(s: Seq<Seq<T>>, m: (u64, u64))
    ensures
        forall|i: int| 0 <= i < s.len() ==> run_len(#[trigger] s[i], m) <= s[i].len(),
{
    assert forall|i: int| 0 <= i < s.len() implies run_len(#[trigger] s[i], m) <= s[i].len() by {
        lemma_run_len_bounds(s[i], m);
    }
}

} // verus!
