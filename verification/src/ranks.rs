//! The ranks of hosts, by which a writer sorts adjacency lists.

use crate::node::NodeID;
use vstd::prelude::*;

verus! {

/// The rank of one host.
#[derive(Clone, Copy, Debug)]
pub struct RankRow {
    pub id: NodeID,
    pub rank: u64,
}

/// The ids of the hosts rise strictly.
pub open spec fn ranks_rising(rows: Seq<RankRow>) -> bool {
    forall|a: int, b: int| 0 <= a < b < rows.len() ==> (#[trigger] rows[a]).id.0 < (#[trigger] rows[b]).id.0
}

/// Some row is about the host `id`.
pub open spec fn has_rank(rows: Seq<RankRow>, id: NodeID) -> bool {
    exists|i: int| 0 <= i < rows.len() && (#[trigger] rows[i]).id == id
}

/// The map that the rows stand for: from each host to its rank.
pub open spec fn ranks_map(rows: Seq<RankRow>) -> Map<NodeID, u64> {
    Map::new(
        |id: NodeID| has_rank(rows, id),
        |id: NodeID| rows[choose|i: int| 0 <= i < rows.len() && (#[trigger] rows[i]).id == id].rank,
    )
}

/// Each row is the entry of its host in the map.
pub proof fn lemma_ranks_at(rows: Seq<RankRow>, i: int)
    requires
        ranks_rising(rows),
        0 <= i < rows.len(),
    ensures
        ranks_map(rows).dom().contains(rows[i].id),
        ranks_map(rows)[rows[i].id] == rows[i].rank,
{
    let id = rows[i].id;
    assert(rows[i].id == id);
    let c = choose|c: int| 0 <= c < rows.len() && (#[trigger] rows[c]).id == id;
    if c < i {
        assert(rows[c].id.0 < rows[i].id.0);
    }
    if i < c {
        assert(rows[i].id.0 < rows[c].id.0);
    }
}

/// The ranks of hosts, kept in the order of the hosts' ids. A lower rank
/// comes first in an adjacency list.
///
/// Its view is the map from each host to its rank.
pub struct RankStore {
    rows: Vec<RankRow>,
}

impl View for RankStore {
    type V = Map<NodeID, u64>;

    closed spec fn view(&self) -> Map<NodeID, u64> {
        ranks_map(self.rows@)
    }
}

impl RankStore {
    /// The rows are kept in the rising order of the hosts' ids.
    pub closed spec fn wf(&self) -> bool {
        ranks_rising(self.rows@)
    }

    /// The number of hosts.
    pub closed spec fn spec_len(&self) -> nat {
        self.rows@.len()
    }

    /// The empty map.
    pub fn new() -> (res: RankStore)
        ensures
            res.wf(),
            res@ == Map::<NodeID, u64>::empty(),
            res.spec_len() == 0,
    {
        let res = RankStore { rows: Vec::new() };
        assert(res@ =~= Map::<NodeID, u64>::empty());
        res
    }

    /// The position of the rank of `id`, or else the position where it belongs.
    fn locate(&self, id: NodeID) -> (res: (usize, bool))
        requires
            self.wf(),
        ensures
            res.0 <= self.rows.len(),
            res.1 ==> res.0 < self.rows.len() && self.rows[res.0 as int].id == id,
            !res.1 ==> !has_rank(self.rows@, id),
            forall|t: int| 0 <= t < res.0 ==> (#[trigger] self.rows[t]).id.0 < id.0,
            forall|t: int|
                res.0 <= t < self.rows.len() && !res.1 ==> (#[trigger] self.rows[t]).id.0 > id.0,
    {
        let mut lo: usize = 0;
        let mut hi: usize = self.rows.len();
        while lo < hi
            invariant
                lo <= hi <= self.rows.len(),
                self.wf(),
                forall|t: int| 0 <= t < lo ==> (#[trigger] self.rows[t]).id.0 < id.0,
                forall|t: int| hi <= t < self.rows.len() ==> (#[trigger] self.rows[t]).id.0 > id.0,
            decreases hi - lo,
        {
            let mid = lo + (hi - lo) / 2;
            let at = self.rows[mid].id.0;
            if at == id.0 {
                return (mid, true);
            } else if at < id.0 {
                lo = mid + 1;
            } else {
                hi = mid;
            }
        }
        (lo, false)
    }

    /// Sets the rank of the host `id`; an earlier rank of `id` is replaced.
    pub fn insert(&mut self, id: NodeID, rank: u64)
        requires
            old(self).wf(),
        ensures
            final(self).wf(),
            final(self)@ == old(self)@.insert(id, rank),
    {
        let (at, found) = self.locate(id);
        let ghost before = self.rows@;
        if found {
            self.rows[at] = RankRow { id, rank };
        } else {
            self.rows.insert(at, RankRow { id, rank });
        }
        proof {
            let after = self.rows@;
            assert(ranks_rising(after));
            assert forall|k: NodeID| has_rank(after, k) <==> (k == id || has_rank(before, k)) by {
                if has_rank(after, k) && k != id {
                    let i = choose|i: int| 0 <= i < after.len() && (#[trigger] after[i]).id == k;
                    if found {
                        assert(before[i].id == k);
                    } else if i < at {
                        assert(before[i].id == k);
                    } else {
                        assert(before[i - 1].id == k);
                    }
                }
                if has_rank(before, k) && k != id {
                    let i = choose|i: int| 0 <= i < before.len() && (#[trigger] before[i]).id == k;
                    if found {
                        assert(after[i].id == k);
                    } else if i < at {
                        assert(after[i].id == k);
                    } else {
                        assert(after[i + 1].id == k);
                    }
                }
                if k == id {
                    assert(after[at as int].id == k);
                }
            }
            assert forall|k: NodeID| has_rank(after, k) implies #[trigger] ranks_map(after)[k]
                == old(self)@.insert(id, rank)[k] by {
                let i = choose|i: int| 0 <= i < after.len() && (#[trigger] after[i]).id == k;
                lemma_ranks_at(after, i);
                if k != id {
                    if found {
                        lemma_ranks_at(before, i);
                    } else if i < at {
                        lemma_ranks_at(before, i);
                    } else {
                        lemma_ranks_at(before, i - 1);
                    }
                } else {
                    assert(i == at) by {
                        if i < at {
                            assert(after[i].id.0 < after[at as int].id.0);
                        }
                        if at < i {
                            assert(after[at as int].id.0 < after[i].id.0);
                        }
                    }
                }
            }
            assert(self@ =~= old(self)@.insert(id, rank));
        }
    }

    /// The rank of the host `id`, if the store has one.
    pub fn get(&self, id: &NodeID) -> (res: Option<u64>)
        requires
            self.wf(),
        ensures
            res is Some <==> self@.dom().contains(*id),
            res matches Some(rank) ==> rank == self@[*id],
    {
        let (at, found) = self.locate(*id);
        if found {
            proof {
                lemma_ranks_at(self.rows@, at as int);
            }
            Some(self.rows[at].rank)
        } else {
            None
        }
    }
}

} // verus!
