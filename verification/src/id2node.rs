//! The map from node ids to nodes.

use crate::node::{canonical, Node, NodeID};
use vstd::prelude::*;

verus! {

/// One row of the map.
pub struct Row {
    pub id: NodeID,
    pub node: Node,
}

/// The ids of the rows rise strictly.
pub open spec fn rows_rising(rows: Seq<Row>) -> bool {
    forall|a: int, b: int| 0 <= a < b < rows.len() ==> (#[trigger] rows[a]).id.0 < (#[trigger] rows[b]).id.0
}

/// The name of every row's node is a canonical name.
pub open spec fn rows_canonical(rows: Seq<Row>) -> bool {
    forall|i: int| 0 <= i < rows.len() ==> canonical((#[trigger] rows[i]).node@) == rows[i].node@
}

/// Some row is about the node `id`.
pub open spec fn has_row(rows: Seq<Row>, id: NodeID) -> bool {
    exists|i: int| 0 <= i < rows.len() && (#[trigger] rows[i]).id == id
}

/// The map that the rows stand for: from each row's id to the name of its node.
pub open spec fn rows_map(rows: Seq<Row>) -> Map<NodeID, Seq<char>> {
    Map::new(
        |id: NodeID| has_row(rows, id),
        |id: NodeID| rows[choose|i: int| 0 <= i < rows.len() && (#[trigger] rows[i]).id == id].node@,
    )
}

/// Each row is the entry of its id in the map.
pub proof fn lemma_rows_map_at(rows: Seq<Row>, i: int)
    requires
        rows_rising(rows),
        0 <= i < rows.len(),
    ensures
        rows_map(rows).dom().contains(rows[i].id),
        rows_map(rows)[rows[i].id] == rows[i].node@,
{
    let id = rows[i].id;
    assert(rows[i].id == id);
    let c = choose|c: int| 0 <= c < rows.len() && (#[trigger] rows[c]).id == id;
    if c < i {
        assert(rows[c].id.0 < rows[i].id.0);
    }
    if i < c {
        assert(rows[i].id.0 < rows[c].id.0);
    }
}

/// A map from node ids to nodes, kept in the order of the ids.
///
/// Its view is the map from each id to the name of its node.
pub struct Id2NodeDb {
    rows: Vec<Row>,
}

impl View for Id2NodeDb {
    type V = Map<NodeID, Seq<char>>;

    closed spec fn view(&self) -> Map<NodeID, Seq<char>> {
        rows_map(self.rows@)
    }
}

impl Id2NodeDb {
    /// The rows are kept in the rising order of their ids, and the names of
    /// their nodes are canonical names.
    pub closed spec fn wf(&self) -> bool {
        rows_rising(self.rows@) && rows_canonical(self.rows@)
    }

    /// Every name of the map is a canonical name.
    pub proof fn lemma_names_canonical(&self)
        requires
            self.wf(),
        ensures
            forall|id: NodeID| #[trigger]
                self@.dom().contains(id) ==> canonical(self@[id]) == self@[id],
    {
        assert forall|id: NodeID| #[trigger] self@.dom().contains(id) implies canonical(self@[id])
            == self@[id] by {
            let i = choose|i: int| 0 <= i < self.rows@.len() && (#[trigger] self.rows@[i]).id == id;
            lemma_rows_map_at(self.rows@, i);
        }
    }

    /// The number of rows.
    pub closed spec fn spec_len(&self) -> nat {
        self.rows@.len()
    }

    /// The ids of the map, in rising order.
    pub closed spec fn spec_keys(&self) -> Seq<NodeID> {
        Seq::new(self.rows@.len(), |i: int| self.rows@[i].id)
    }

    /// The ids of `spec_keys` rise strictly and are the ids of the map, and
    /// there are as many as rows.
    pub proof fn lemma_keys(&self)
        requires
            self.wf(),
        ensures
            self.spec_keys().len() == self.spec_len(),
            forall|a: int, b: int|
                0 <= a < b < self.spec_keys().len() ==> (#[trigger] self.spec_keys()[a]).0 < (
                #[trigger] self.spec_keys()[b]).0,
            forall|id: NodeID| self.spec_keys().contains(id) <==> self@.dom().contains(id),
    {
        let keys = self.spec_keys();
        assert forall|a: int, b: int| 0 <= a < b < keys.len() implies (#[trigger] keys[a]).0 < (
        #[trigger] keys[b]).0 by {
            assert(self.rows@[a].id.0 < self.rows@[b].id.0);
        }
        assert forall|id: NodeID| keys.contains(id) <==> self@.dom().contains(id) by {
            if keys.contains(id) {
                let t = choose|t: int| 0 <= t < keys.len() && keys[t] == id;
                assert(self.rows@[t].id == id);
            }
            if has_row(self.rows@, id) {
                let t = choose|t: int| 0 <= t < self.rows@.len() && (#[trigger] self.rows@[t]).id == id;
                assert(keys[t] == id);
            }
        }
    }

    /// The id at the position `i` of the rising order of the ids, if there
    /// are so many. Walking the positions walks the ids without holding them
    /// all.
    pub fn key_at(&self, i: usize) -> (res: Option<NodeID>)
        ensures
            res == if i < self.spec_keys().len() {
                Some(self.spec_keys()[i as int])
            } else {
                None
            },
    {
        if i < self.rows.len() {
            Some(self.rows[i].id)
        } else {
            None
        }
    }

    /// The row at the position `i` of the rising order of the ids, if there
    /// are so many.
    pub fn row_at(&self, i: usize) -> (res: Option<(NodeID, Node)>)
        requires
            self.wf(),
        ensures
            res is Some <==> i < self.spec_keys().len(),
            res matches Some(row) ==> row.0 == self.spec_keys()[i as int] && self@.dom().contains(
                row.0,
            ) && row.1@ == self@[row.0],
    {
        if i < self.rows.len() {
            proof {
                lemma_rows_map_at(self.rows@, i as int);
            }
            Some((self.rows[i].id, self.rows[i].node.clone()))
        } else {
            None
        }
    }

    /// The empty map.
    pub fn new() -> (res: Id2NodeDb)
        ensures
            res.wf(),
            res@ == Map::<NodeID, Seq<char>>::empty(),
            res.spec_len() == 0,
    {
        let res = Id2NodeDb { rows: Vec::new() };
        assert(res@ =~= Map::<NodeID, Seq<char>>::empty());
        res
    }

    /// The position of the row of `id`, or else the position where such a row
    /// belongs.
    fn locate(&self, id: NodeID) -> (res: (usize, bool))
        requires
            self.wf(),
        ensures
            res.0 <= self.rows.len(),
            res.1 ==> res.0 < self.rows.len() && self.rows[res.0 as int].id == id,
            !res.1 ==> !has_row(self.rows@, id),
            forall|t: int| 0 <= t < res.0 ==> (#[trigger] self.rows[t]).id.0 < id.0,
            forall|t: int|
                res.0 <= t < self.rows.len() && !res.1 ==> (#[trigger] self.rows[t]).id.0 > id.0,
    {
        let mut lo: usize = 0;
        let mut hi: usize = self.rows.len();
        while lo < hi
            invariant
                lo <= hi <= self.rows.len(),
                self.wf(),
                forall|t: int| 0 <= t < lo ==> (#[trigger] self.rows[t]).id.0 < id.0,
                forall|t: int| hi <= t < self.rows.len() ==> (#[trigger] self.rows[t]).id.0 > id.0,
            decreases hi - lo,
        {
            let mid = lo + (hi - lo) / 2;
            let at = self.rows[mid].id.0;
            if at == id.0 {
                return (mid, true);
            } else if at < id.0 {
                lo = mid + 1;
            } else {
                hi = mid;
            }
        }
        (lo, false)
    }

    /// Sets the node of `id`; an earlier node of `id` is replaced.
    pub fn put(&mut self, id: NodeID, node: Node)
        requires
            old(self).wf(),
        ensures
            final(self).wf(),
            final(self)@ == old(self)@.insert(id, node@),
    {
        let (at, found) = self.locate(id);
        let ghost before = self.rows@;
        proof {
            use_type_invariant(&node);
        }
        if found {
            self.rows[at] = Row { id, node };
        } else {
            self.rows.insert(at, Row { id, node });
        }
        proof {
            let after = self.rows@;
            assert(rows_rising(after));
            assert(rows_canonical(after)) by {
                assert forall|i: int| 0 <= i < after.len() implies canonical(
                    (#[trigger] after[i]).node@,
                ) == after[i].node@ by {
                    if i != at {
                        if found || i < at {
                            assert(after[i] == before[i]);
                        } else {
                            assert(after[i] == before[i - 1]);
                        }
                    }
                }
            }
            assert forall|k: NodeID| has_row(after, k) <==> (k == id || has_row(before, k)) by {
                if has_row(after, k) && k != id {
                    let i = choose|i: int| 0 <= i < after.len() && (#[trigger] after[i]).id == k;
                    if found {
                        assert(before[i].id == k);
                    } else if i < at {
                        assert(before[i].id == k);
                    } else {
                        assert(before[i - 1].id == k);
                    }
                }
                if has_row(before, k) && k != id {
                    let i = choose|i: int| 0 <= i < before.len() && (#[trigger] before[i]).id == k;
                    if found {
                        assert(after[i].id == k);
                    } else if i < at {
                        assert(after[i].id == k);
                    } else {
                        assert(after[i + 1].id == k);
                    }
                }
                if k == id {
                    assert(after[at as int].id == k);
                }
            }
            assert forall|k: NodeID| has_row(after, k) implies #[trigger] rows_map(after)[k]
                == old(self)@.insert(id, node@)[k] by {
                let i = choose|i: int| 0 <= i < after.len() && (#[trigger] after[i]).id == k;
                lemma_rows_map_at(after, i);
                if k != id {
                    if found {
                        lemma_rows_map_at(before, i);
                    } else if i < at {
                        lemma_rows_map_at(before, i);
                    } else {
                        lemma_rows_map_at(before, i - 1);
                    }
                } else {
                    assert(i == at) by {
                        if i < at {
                            assert(after[i].id.0 < after[at as int].id.0);
                        }
                        if at < i {
                            assert(after[at as int].id.0 < after[i].id.0);
                        }
                    }
                }
            }
            assert(self@ =~= old(self)@.insert(id, node@));
        }
    }

    /// The node of `id`, if the map has one.
    pub fn get(&self, id: &NodeID) -> (res: Option<Node>)
        requires
            self.wf(),
        ensures
            res is Some <==> self@.dom().contains(*id),
            res matches Some(node) ==> node@ == self@[*id],
    {
        let (at, found) = self.locate(*id);
        if found {
            proof {
                lemma_rows_map_at(self.rows@, at as int);
            }
            Some(self.rows[at].node.clone())
        } else {
            None
        }
    }

    /// Whether the map has a node for `id`.
    pub fn contains(&self, id: &NodeID) -> (res: bool)
        requires
            self.wf(),
        ensures
            res == self@.dom().contains(*id),
    {
        let (at, found) = self.locate(*id);
        proof {
            if found {
                lemma_rows_map_at(self.rows@, at as int);
            }
        }
        found
    }

    /// The ids of the map, in rising order.
    pub fn keys(&self) -> (res: Vec<NodeID>)
        requires
            self.wf(),
        ensures
            res@ == self.spec_keys(),
            res.len() == self.spec_len(),
            forall|a: int, b: int| 0 <= a < b < res.len() ==> (#[trigger] res[a]).0 < (#[trigger] res[b]).0,
            forall|id: NodeID| res@.contains(id) <==> self@.dom().contains(id),
    {
        let n = self.rows.len();
        let mut res: Vec<NodeID> = Vec::new();
        let mut i: usize = 0;
        while i < n
            invariant
                i <= n,
                n == self.rows.len(),
                res.len() == i,
                forall|t: int| 0 <= t < i ==> #[trigger] res[t] == self.rows[t].id,
            decreases n - i,
        {
            res.push(self.rows[i].id);
            i += 1;
        }
        proof {
            assert(res@ =~= self.spec_keys());
            self.lemma_keys();
        }
        res
    }

    /// The rows of the map, in rising order of the ids.
    pub fn iter(&self) -> (res: Vec<(NodeID, Node)>)
        requires
            self.wf(),
        ensures
            res.len() == self.spec_len(),
            forall|a: int, b: int|
                0 <= a < b < res.len() ==> (#[trigger] res[a]).0.0 < (#[trigger] res[b]).0.0,
            forall|t: int|
                0 <= t < res.len() ==> self@.dom().contains((#[trigger] res[t]).0) && self@[res[t].0]
                    == res[t].1@,
            forall|id: NodeID|
                self@.dom().contains(id) ==> exists|t: int|
                    0 <= t < res.len() && (#[trigger] res[t]).0 == id,
    {
        let n = self.rows.len();
        let mut res: Vec<(NodeID, Node)> = Vec::new();
        let mut i: usize = 0;
        while i < n
            invariant
                i <= n,
                n == self.rows.len(),
                res.len() == i,
                forall|t: int|
                    0 <= t < i ==> (#[trigger] res[t]).0 == self.rows[t].id && res[t].1@
                        == self.rows[t].node@,
            decreases n - i,
        {
            res.push((self.rows[i].id, self.rows[i].node.clone()));
            i += 1;
        }
        proof {
            assert forall|t: int| 0 <= t < res.len() implies self@.dom().contains(
                (#[trigger] res[t]).0,
            ) && self@[res[t].0] == res[t].1@ by {
                lemma_rows_map_at(self.rows@, t);
            }
            assert forall|id: NodeID| self@.dom().contains(id) implies exists|t: int|
                0 <= t < res.len() && (#[trigger] res[t]).0 == id by {
                let t = choose|t: int| 0 <= t < self.rows@.len() && (#[trigger] self.rows@[t]).id == id;
                assert(res[t].0 == id);
            }
        }
        res
    }

    /// Prepares the map for reading. The rows are kept in order at all
    /// times, so nothing is to prepare: the map stays as it is.
    pub fn optimize_read(&mut self)
        ensures
            *final(self) == *old(self),
    {
    }

    /// The number of ids. In memory the estimate is exact.
    pub fn estimate_num_keys(&self) -> (res: usize)
        ensures
            res == self.spec_len(),
    {
        self.rows.len()
    }

    /// Takes over the rows of `other`. Where both maps have a node for an id,
    /// the node of `other` stays.
    pub fn merge(&mut self, other: Id2NodeDb)
        requires
            old(self).wf(),
            other.wf(),
        ensures
            final(self).wf(),
            final(self)@ == old(self)@.union_prefer_right(other@),
    {
        let mut other = other;
        let ghost theirs = other.rows@;
        let ghost mine = self@;
        // rows of `other` that are not yet taken over: the first `other.rows.len()`
        assert(self@ =~= mine.union_prefer_right(rows_map(theirs.skip(theirs.len() as int))));
        while other.rows.len() > 0
            invariant
                self.wf(),
                rows_rising(theirs),
                other.rows@ == theirs.take(other.rows.len() as int),
                other.rows.len() <= theirs.len(),
                self@ == mine.union_prefer_right(rows_map(theirs.skip(other.rows.len() as int))),
            decreases other.rows.len(),
        {
            let ghost done = theirs.skip(other.rows.len() as int);
            let row = other.rows.pop().unwrap();
            let ghost n = other.rows.len() as int;
            let ghost rest = theirs.skip(n);
            let ghost before = self@;
            assert(row == theirs[n]);
            assert(other.rows@ =~= theirs.take(n));
            let id = row.id;
            proof {
                assert(rows_rising(rest)) by {
                    assert forall|a: int, b: int| 0 <= a < b < rest.len() implies (
                    #[trigger] rest[a]).id.0 < (#[trigger] rest[b]).id.0 by {
                        assert(theirs[a + n].id.0 < theirs[b + n].id.0);
                    }
                }
                lemma_rows_map_at(rest, 0);
                assert forall|k: NodeID| has_row(rest, k) <==> (k == id || has_row(done, k)) by {
                    if has_row(rest, k) && k != id {
                        let i = choose|i: int| 0 <= i < rest.len() && (#[trigger] rest[i]).id == k;
                        assert(done[i - 1].id == k);
                    }
                    if has_row(done, k) {
                        let i = choose|i: int| 0 <= i < done.len() && (#[trigger] done[i]).id == k;
                        assert(rest[i + 1].id == k);
                    }
                    if k == id {
                        assert(rest[0].id == k);
                    }
                }
                assert(!has_row(done, id)) by {
                    if has_row(done, id) {
                        let i = choose|i: int| 0 <= i < done.len() && (#[trigger] done[i]).id == id;
                        assert(theirs[n].id.0 < theirs[n + 1 + i].id.0);
                    }
                }
                assert(rows_rising(done)) by {
                    assert forall|a: int, b: int| 0 <= a < b < done.len() implies (
                    #[trigger] done[a]).id.0 < (#[trigger] done[b]).id.0 by {
                        assert(theirs[a + n + 1].id.0 < theirs[b + n + 1].id.0);
                    }
                }
                assert forall|k: NodeID| has_row(done, k) implies #[trigger] rows_map(rest)[k]
                    == rows_map(done)[k] by {
                    let i = choose|i: int| 0 <= i < done.len() && (#[trigger] done[i]).id == k;
                    lemma_rows_map_at(done, i);
                    lemma_rows_map_at(rest, i + 1);
                }
            }
            self.put(id, row.node);
            assert(self@ =~= mine.union_prefer_right(rows_map(rest)));
        }
        assert(theirs.skip(0) =~= theirs);
    }
}

} // verus!
