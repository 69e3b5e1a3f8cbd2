//! A binary min-heap over lexicographically ordered keys.
//!
//! The two merge iterators keep one key per input in such a heap, and the
//! sorting routine of this crate drains one.

use vstd::multiset::Multiset;
use vstd::prelude::*;

verus! {

broadcast use vstd::seq_lib::group_to_multiset_ensures;

/// A key of up to three ordered parts, and the slot that it was made for.
///
/// Keys are ordered by `k0`, then `k1`, then `k2`, then `slot`.
#[derive(Clone, Copy, Debug, PartialEq, Eq, Structural)]
pub struct SortKey {
    pub k0: u64,
    pub k1: u64,
    pub k2: u64,
    pub slot: usize,
}

impl SortKey {
    /// The strict lexicographic order on keys.
    pub open spec fn spec_lt(self, other: SortKey) -> bool {
        ||| self.k0 < other.k0
        ||| (self.k0 == other.k0 && self.k1 < other.k1)
        ||| (self.k0 == other.k0 && self.k1 == other.k1 && self.k2 < other.k2)
        ||| (self.k0 == other.k0 && self.k1 == other.k1 && self.k2 == other.k2 && self.slot
            < other.slot)
    }

    /// `self` comes before `other` or is `other`.
    pub open spec fn spec_le(self, other: SortKey) -> bool {
        self == other || self.spec_lt(other)
    }

    /// The key of the given parts.
    pub fn new(k0: u64, k1: u64, k2: u64, slot: usize) -> (key: SortKey)
        ensures
            key == (SortKey { k0, k1, k2, slot }),
    {
        SortKey { k0, k1, k2, slot }
    }

    /// Whether `self` comes before `other`.
    pub fn lt(&self, other: &SortKey) -> (res: bool)
        ensures
            res == self.spec_lt(*other),
    {
        if self.k0 != other.k0 {
            self.k0 < other.k0
        } else if self.k1 != other.k1 {
            self.k1 < other.k1
        } else if self.k2 != other.k2 {
            self.k2 < other.k2
        } else {
            self.slot < other.slot
        }
    }
}

/// `key` occurs in `keys` and no key of `keys` is smaller.
pub open spec fn is_least(keys: Multiset<SortKey>, key: SortKey) -> bool {
    &&& keys.count(key) > 0
    &&& forall|other: SortKey| keys.count(other) > 0 ==> key.spec_le(other)
}

/// The position above `i` in the heap.
pub open spec fn parent(i: int) -> int {
    (i - 1) / 2
}

/// Every key but the root is at least its parent.
pub open spec fn heap_ordered(s: Seq<SortKey>) -> bool {
    forall|i: int| 1 <= i < s.len() ==> s[parent(i)].spec_le(#[trigger] s[i])
}

/// Heap order but for the edges that lead into `hole`; the keys below `hole`
/// are still at least the key above it.
pub open spec fn ordered_but_into(s: Seq<SortKey>, hole: int) -> bool {
    &&& forall|i: int| 1 <= i < s.len() && i != hole ==> s[parent(i)].spec_le(#[trigger] s[i])
    &&& forall|i: int|
        1 <= i < s.len() && parent(i) == hole && hole > 0 ==> s[parent(hole)].spec_le(
            #[trigger] s[i],
        )
}

/// Heap order but for the edges that lead out of `hole`; the keys below `hole`
/// are still at least the key above it.
pub open spec fn ordered_but_from(s: Seq<SortKey>, hole: int) -> bool {
    &&& forall|i: int|
        1 <= i < s.len() && parent(i) != hole ==> s[parent(i)].spec_le(#[trigger] s[i])
    &&& forall|i: int|
        1 <= i < s.len() && parent(i) == hole && hole > 0 ==> s[parent(hole)].spec_le(
            #[trigger] s[i],
        )
}

/// In a heap no key is smaller than the root.
pub proof fn lemma_root_is_least(s: Seq<SortKey>, i: int)
    requires
        heap_ordered(s),
        0 <= i < s.len(),
    ensures
        s[0].spec_le(s[i]),
    decreases i,
{
    if i > 0 {
        lemma_root_is_least(s, parent(i));
        assert(s[parent(i)].spec_le(s[i]));
    }
}

/// The root of a heap is the least of its keys.
pub proof fn lemma_root_is_least_of_multiset(s: Seq<SortKey>)
    requires
        heap_ordered(s),
        s.len() > 0,
    ensures
        is_least(s.to_multiset(), s[0]),
{
    assert(s.contains(s[0]));
    assert forall|other: SortKey| s.to_multiset().count(other) > 0 implies s[0].spec_le(
        other,
    ) by {
        assert(s.contains(other));
        let i = choose|i: int| 0 <= i < s.len() && s[i] == other;
        lemma_root_is_least(s, i);
    }
}

/// Swapping two keys changes no count.
pub proof fn lemma_swap_multiset(s: Seq<SortKey>, i: int, j: int)
    requires
        0 <= i < s.len(),
        0 <= j < s.len(),
    ensures
        s.update(i, s[j]).update(j, s[i]).to_multiset() == s.to_multiset(),
{
    let t = s.update(i, s[j]);
    assert(s.contains(s[i]));
    assert(s.contains(s[j]));
    assert(t.to_multiset() == s.to_multiset().insert(s[j]).remove(s[i]));
    assert(t.update(j, s[i]).to_multiset() == t.to_multiset().insert(s[i]).remove(t[j]));
    assert(s.update(i, s[j]).update(j, s[i]).to_multiset() =~= s.to_multiset());
}

/// A min-heap of keys. Its view is the multiset of the keys that it holds.
pub struct MinHeap {
    data: Vec<SortKey>,
}

impl View for MinHeap {
    type V = Multiset<SortKey>;

    closed spec fn view(&self) -> Multiset<SortKey> {
        self.data@.to_multiset()
    }
}

impl MinHeap {
    /// The keys are in heap order.
    pub closed spec fn wf(&self) -> bool {
        heap_ordered(self.data@)
    }

    /// A heap without keys.
    pub fn new() -> (heap: MinHeap)
        ensures
            heap.wf(),
            heap@ == Multiset::<SortKey>::empty(),
    {
        let heap = MinHeap { data: Vec::new() };
        assert(heap.data@.to_multiset() =~= Multiset::<SortKey>::empty());
        heap
    }

    /// The number of keys.
    pub fn len(&self) -> (n: usize)
        ensures
            n == self@.len(),
    {
        self.data.len()
    }

    /// Whether the heap holds no key.
    pub fn is_empty(&self) -> (res: bool)
        ensures
            res == (self@.len() == 0),
    {
        self.data.len() == 0
    }

    /// The least key, if the heap holds any.
    pub fn peek(&self) -> (res: Option<SortKey>)
        requires
            self.wf(),
        ensures
            res is None <==> self@.len() == 0,
            res matches Some(key) ==> is_least(self@, key),
    {
        if self.data.len() == 0 {
            None
        } else {
            proof {
                lemma_root_is_least_of_multiset(self.data@);
            }
            Some(self.data[0])
        }
    }

    fn swap(&mut self, i: usize, j: usize)
        requires
            i < old(self).data.len(),
            j < old(self).data.len(),
        ensures
            final(self).data@ == old(self).data@.update(i as int, old(self).data@[j as int]).update(
                j as int,
                old(self).data@[i as int],
            ),
            final(self)@ == old(self)@,
    {
        let a = self.data[i];
        let b = self.data[j];
        self.data[i] = b;
        self.data[j] = a;
        proof {
            lemma_swap_multiset(old(self).data@, i as int, j as int);
        }
    }

    /// Adds the key `key`.
    pub fn push(&mut self, key: SortKey)
        requires
            old(self).wf(),
        ensures
            final(self).wf(),
            final(self)@ == old(self)@.insert(key),
    {
        self.data.push(key);
        let mut i: usize = self.data.len() - 1;
        while i > 0
            invariant_except_break
                ordered_but_into(self.data@, i as int),
            invariant
                i < self.data.len(),
                self@ == old(self)@.insert(key),
            ensures
                heap_ordered(self.data@),
            decreases i,
        {
            let p: usize = (i - 1) / 2;
            if self.data[i].lt(&self.data[p]) {
                self.swap(i, p);
                i = p;
            } else {
                break ;
            }
        }
    }

    /// Takes the least key out, if the heap holds any.
    pub fn pop(&mut self) -> (res: Option<SortKey>)
        requires
            old(self).wf(),
        ensures
            final(self).wf(),
            res is None <==> old(self)@.len() == 0,
            res is None ==> final(self)@ == old(self)@,
            res matches Some(key) ==> is_least(old(self)@, key) && final(self)@ == old(self)@.remove(
                key,
            ),
    {
        let n: usize = self.data.len();
        if n == 0 {
            return None;
        }
        proof {
            lemma_root_is_least_of_multiset(self.data@);
        }
        let least = self.data[0];
        self.swap(0, n - 1);
        let ghost swapped = self.data@;
        let last = self.data.pop();
        assert(self.data@.push(least) =~= swapped);
        assert(self@ =~= old(self)@.remove(least));
        let m: usize = n - 1;
        let mut i: usize = 0;
        while i < m / 2
            invariant_except_break
                ordered_but_from(self.data@, i as int),
            invariant
                m == self.data.len(),
                self@ == old(self)@.remove(least),
            ensures
                heap_ordered(self.data@),
            decreases m - i,
        {
            let left: usize = 2 * i + 1;
            let right: usize = left + 1;
            let child: usize = if right < m && self.data[right].lt(&self.data[left]) {
                right
            } else {
                left
            };
            if self.data[child].lt(&self.data[i]) {
                self.swap(i, child);
                i = child;
            } else {
                break ;
            }
        }
        Some(least)
    }
}

} // verus!
