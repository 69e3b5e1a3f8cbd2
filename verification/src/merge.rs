//! The two merge iterators: one walks the node indices of several segments in
//! the order of the node ids, the other fuses the adjacency lists of one node.

use crate::edge::StoredEdge;
use crate::fuse::lemma_first_with_head;
use crate::fusion::{least_at, lemma_least_at, next_edge};
use crate::kway::{drained, group, has_live, is_least_head, least_key, vec_views, KWay, MergeKey};
use crate::node::NodeID;
use crate::segment::EdgeRange;
use core::ops::Range;
use vstd::prelude::*;

verus! {

/// One entry of a segment's node index: the node, where its edges lie, where
/// their labels lie, and a tag `ord` that the merge adds.
#[derive(Clone, Copy, Debug)]
pub struct MergeNode<O = ()> {
    pub node: NodeID,
    pub range: EdgeRange,
    pub labels_start: u64,
    pub labels_end: u64,
    pub ord: O,
}

impl MergeNode {
    /// The index entry of `node`, whose edges lie at `range` and whose labels
    /// lie at `labels`.
    pub fn new(node: NodeID, range: EdgeRange, labels: Range<u64>) -> (res: MergeNode)
        ensures
            res == (MergeNode {
                node,
                range,
                labels_start: labels.start,
                labels_end: labels.end,
                ord: (),
            }),
    {
        MergeNode { node, range, labels_start: labels.start, labels_end: labels.end, ord: () }
    }
}

impl<O> MergeNode<O> {
    /// The same entry with the tag `ord`.
    pub open spec fn spec_with_ord<O2>(self, ord: O2) -> MergeNode<O2> {
        MergeNode {
            node: self.node,
            range: self.range,
            labels_start: self.labels_start,
            labels_end: self.labels_end,
            ord,
        }
    }

    /// The same entry with the tag `ord`.
    pub fn with_ord<O2>(self, ord: O2) -> (res: MergeNode<O2>)
        ensures
            res == self.spec_with_ord(ord),
    {
        MergeNode {
            node: self.node,
            range: self.range,
            labels_start: self.labels_start,
            labels_end: self.labels_end,
            ord,
        }
    }

    /// The node that the entry is about.
    pub fn id(&self) -> (res: NodeID)
        ensures
            res == self.node,
    {
        self.node
    }

    /// Where the edges of the node lie.
    pub fn range(&self) -> (res: &EdgeRange)
        ensures
            *res == self.range,
    {
        &self.range
    }

    /// Where the labels of the node's edges lie.
    pub fn labels(&self) -> (res: Range<u64>)
        ensures
            res.start == self.labels_start,
            res.end == self.labels_end,
    {
        self.labels_start..self.labels_end
    }

    /// The tag of the entry.
    pub fn ord(&self) -> (res: &O)
        ensures
            *res == self.ord,
    {
        &self.ord
    }
}

impl<O> MergeKey for MergeNode<O> {
    /// Index entries are merged by the node id alone.
    open spec fn spec_key(&self) -> (u64, u64) {
        (self.node.0, 0)
    }

    fn key(&self) -> (k: (u64, u64)) {
        (self.node.0, 0)
    }
}

/// Position of a segment among the inputs of a merge.
#[derive(Clone, Copy, Debug, PartialEq, Eq, Structural)]
pub struct MergeSegmentOrd(pub usize);

impl MergeSegmentOrd {
    /// The position `ord`.
    pub fn new(ord: usize) -> (res: Self)
        ensures
            res.0 == ord,
    {
        Self(ord)
    }

    /// The position as a number.
    pub fn as_usize(&self) -> (res: usize)
        ensures
            res == self.0,
    {
        self.0
    }
}

/// The index entries of `entries`, each tagged with the position `ord`.
pub open spec fn tagged(entries: Seq<MergeNode>, ord: usize) -> Seq<MergeNode<MergeSegmentOrd>> {
    Seq::new(entries.len(), |j: int| entries[j].spec_with_ord(MergeSegmentOrd(ord)))
}

/// The inputs of a node merge: the index of each segment, tagged with the
/// segment's position.
pub open spec fn tagged_inputs(iters: Seq<Vec<MergeNode>>) -> Seq<Seq<MergeNode<MergeSegmentOrd>>> {
    Seq::new(iters.len(), |i: int| tagged(iters[i]@, i as usize))
}

/// Merges the node indices of several segments by node id.
///
/// Its view is what is left of each input.
pub struct MergeIter {
    inner: KWay<MergeNode<MergeSegmentOrd>>,
}

impl View for MergeIter {
    type V = Seq<Seq<MergeNode<MergeSegmentOrd>>>;

    closed spec fn view(&self) -> Seq<Seq<MergeNode<MergeSegmentOrd>>> {
        self.inner@
    }
}

impl MergeIter {
    /// The merge is in a state that `new` and `advance` leave it in.
    pub closed spec fn wf(&self) -> bool {
        self.inner.wf()
    }

    /// A merge of the node indices `iters`, one per segment; each entry is
    /// tagged with the position of its segment.
    pub fn new(iters: Vec<Vec<MergeNode>>) -> (res: MergeIter)
        ensures
            res.wf(),
            res@ == tagged_inputs(iters@),
    {
        let n = iters.len();
        let mut inputs: Vec<Vec<MergeNode<MergeSegmentOrd>>> = Vec::new();
        let mut i: usize = 0;
        while i < n
            invariant
                i <= n,
                n == iters.len(),
                inputs.len() == i,
                forall|a: int| 0 <= a < i ==> (#[trigger] inputs@[a])@ == tagged(iters@[a]@, a as usize),
            decreases n - i,
        {
            let len = iters[i].len();
            let mut input: Vec<MergeNode<MergeSegmentOrd>> = Vec::new();
            let mut j: usize = 0;
            while j < len
                invariant
                    j <= len,
                    i < iters.len(),
                    len == iters@[i as int]@.len(),
                    input.len() == j,
                    forall|b: int|
                        0 <= b < j ==> #[trigger] input@[b] == iters@[i as int]@[b].spec_with_ord(
                            MergeSegmentOrd(i),
                        ),
                decreases len - j,
            {
                let entry = iters[i][j];
                input.push(entry.with_ord(MergeSegmentOrd::new(i)));
                j += 1;
            }
            assert(input@ =~= tagged(iters@[i as int]@, i));
            inputs.push(input);
            i += 1;
        }
        assert(vec_views(inputs@) =~= tagged_inputs(iters@));
        MergeIter { inner: KWay::new(inputs) }
    }

    /// Fills `buf` with the next group: the index entries of the least node
    /// id that any input has at its head, taken from the head of every input
    /// that has it there, in the order of the inputs. Returns `false`, with
    /// `buf` empty, when every input is exhausted.
    pub fn advance(&mut self, buf: &mut Vec<MergeNode<MergeSegmentOrd>>) -> (res: bool)
        requires
            old(self).wf(),
        ensures
            final(self).wf(),
            res == has_live(old(self)@),
            !res ==> final(self)@ == old(self)@ && final(buf)@ == Seq::<
                MergeNode<MergeSegmentOrd>,
            >::empty(),
            res ==> is_least_head(old(self)@, least_key(old(self)@)),
            res ==> final(self)@ == drained(old(self)@, least_key(old(self)@)),
            res ==> final(buf)@ == group(old(self)@, least_key(old(self)@)),
    {
        buf.clear();
        let res = self.inner.next_group(buf);
        assert(Seq::<MergeNode<MergeSegmentOrd>>::empty() + group(
            old(self)@,
            least_key(old(self)@),
        ) =~= group(old(self)@, least_key(old(self)@)));
        res
    }
}

/// Merges the adjacency lists that several segments hold for one node.
///
/// Edges come out by the sort keys of their neighbours, one for each sort
/// key: edges of one sort key count as the same edge, whatever neighbour
/// they name. Of the edges that carry the least sort key at the heads of the
/// inputs, the least by `(sort_key, id)` comes out, the one of the earliest
/// input where several are the least; every input then loses the edges at
/// its head that carry this sort key. Its view is what is left of each input.
pub struct EdgeMerger<L = String> {
    inner: KWay<StoredEdge<L>>,
    scratch: Vec<StoredEdge<L>>,
}

impl<L> View for EdgeMerger<L> {
    type V = Seq<Seq<StoredEdge<L>>>;

    closed spec fn view(&self) -> Seq<Seq<StoredEdge<L>>> {
        self.inner@
    }
}

impl<L> EdgeMerger<L> {
    /// The merge is in a state that `new` and `next` leave it in.
    pub closed spec fn wf(&self) -> bool {
        self.inner.wf()
    }

    /// A merge of the adjacency lists `iters`.
    pub fn new(iters: Vec<Vec<StoredEdge<L>>>) -> (res: EdgeMerger<L>)
        ensures
            res.wf(),
            res@ == vec_views(iters@),
    {
        EdgeMerger { inner: KWay::new(iters), scratch: Vec::new() }
    }

    /// The next edge, or `None` when every input is exhausted: of the edges
    /// at the heads of the inputs that carry the least sort key, the first
    /// whose neighbour has the least id. Every input loses the edges at its
    /// head whose sort key is that of the edge that comes out.
    pub fn next(&mut self) -> (res: Option<StoredEdge<L>>)
        requires
            old(self).wf(),
        ensures
            final(self).wf(),
            res is Some <==> has_live(old(self)@),
            res is None ==> final(self)@ == old(self)@,
            res is Some ==> is_least_head(old(self)@, least_key(old(self)@)),
            res is Some ==> final(self)@ == drained(old(self)@, least_key(old(self)@)),
            res is Some ==> res->0 == next_edge(old(self)@),
    {
        self.scratch.clear();
        let live = self.inner.next_group(&mut self.scratch);
        if !live {
            return None;
        }
        proof {
            let s = old(self)@;
            let m = least_key(s);
            lemma_first_with_head(s, m, s.len());
            assert(Seq::<StoredEdge<L>>::empty() + group(s, m) =~= group(s, m));
        }
        let n = self.scratch.len();
        let mut at: usize = 0;
        let mut j: usize = 1;
        while j < n
            invariant
                1 <= j <= n,
                n == self.scratch.len(),
                at == least_at(self.scratch@, j as nat),
                0 <= at < j,
            decreases n - j,
        {
            if self.scratch[j].other.id.0 < self.scratch[at].other.id.0 {
                at = j;
            }
            j += 1;
        }
        let first = self.scratch.swap_remove(at);
        Some(first)
    }
}

} // verus!
