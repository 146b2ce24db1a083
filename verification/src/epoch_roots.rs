//! The epoch root mapping: which trie root each committed epoch has.
//!
//! The records are kept in ascending order of epoch. A recorded root is never
//! replaced; a rollback removes the records from its target upwards and
//! leaves the others as they are.

use vstd::prelude::*;
use crate::errors::ErrorKind;
use crate::node::MerkleHash;

verus! {

/// An epoch: its height, and a number that tells forks of one height apart.
#[derive(Clone, Copy, Debug, PartialEq, Eq, Structural, Hash)]
pub struct EpochId {
    pub height: u64,
    pub fork: u64,
}

impl EpochId {
    pub fn new(height: u64, fork: u64) -> (e: EpochId)
        ensures
            e.height == height,
            e.fork == fork,
    {
        EpochId { height, fork }
    }

    /// Epochs are ordered by height, and those of one height by fork.
    pub open spec fn spec_lt(self, other: EpochId) -> bool {
        self.height < other.height || (self.height == other.height && self.fork < other.fork)
    }

    pub fn lt(&self, other: &EpochId) -> (b: bool)
        ensures
            b == self.spec_lt(*other),
    {
        self.height < other.height || (self.height == other.height && self.fork < other.fork)
    }
}

/// The root of one epoch: the hash of the root node, or `None` for a trie
/// that holds nothing.
#[derive(Clone, Copy, Debug, PartialEq, Eq, Structural)]
pub struct EpochRoot {
    pub epoch: EpochId,
    pub root: Option<MerkleHash>,
}

/// Records in strictly ascending order of epoch.
pub open spec fn ascending(records: Seq<EpochRoot>) -> bool {
    forall|i: int, j: int|
        0 <= i < j < records.len() ==> (#[trigger] records[i]).epoch.spec_lt(
            (#[trigger] records[j]).epoch,
        )
}

pub open spec fn has_epoch(records: Seq<EpochRoot>, epoch: EpochId) -> bool {
    exists|i: int| 0 <= i < records.len() && (#[trigger] records[i]).epoch == epoch
}

/// The mapping that records make.
pub open spec fn roots_map(records: Seq<EpochRoot>) -> Map<EpochId, Option<MerkleHash>> {
    Map::new(
        |e: EpochId| has_epoch(records, e),
        |e: EpochId| records[choose|i: int| 0 <= i < records.len() && (#[trigger] records[i]).epoch == e].root,
    )
}

/// In ascending records an epoch stands at one place only.
pub proof fn lemma_roots_map_at(records: Seq<EpochRoot>, i: int)
    requires
        ascending(records),
        0 <= i < records.len(),
    ensures
        roots_map(records).contains_key(records[i].epoch),
        roots_map(records)[records[i].epoch] == records[i].root,
{
    let e = records[i].epoch;
    let j = choose|j: int| 0 <= j < records.len() && (#[trigger] records[j]).epoch == e;
    if j < i {
        assert(records[j].epoch.spec_lt(records[i].epoch));
    } else if i < j {
        assert(records[i].epoch.spec_lt(records[j].epoch));
    }
}

/// The epoch root mapping.
pub struct EpochRoots {
    records: Vec<EpochRoot>,
}

impl View for EpochRoots {
    type V = Map<EpochId, Option<MerkleHash>>;

    closed spec fn view(&self) -> Map<EpochId, Option<MerkleHash>> {
        roots_map(self.records@)
    }
}

impl EpochRoots {
    /// The records, in ascending order of epoch.
    pub closed spec fn records(&self) -> Seq<EpochRoot> {
        self.records@
    }

    pub open spec fn wf(&self) -> bool {
        ascending(self.records()) && self@ == roots_map(self.records())
    }

    /// A mapping without records.
    pub fn new() -> (r: EpochRoots)
        ensures
            r.wf(),
            r@ == Map::<EpochId, Option<MerkleHash>>::empty(),
            r.records() == Seq::<EpochRoot>::empty(),
    {
        let r = EpochRoots { records: Vec::new() };
        assert(r@ =~= Map::<EpochId, Option<MerkleHash>>::empty());
        r
    }

    /// Takes records as they were read from a store; `None` where they are
    /// not in strictly ascending order of epoch.
    pub fn from_records(records: Vec<EpochRoot>) -> (r: Option<EpochRoots>)
        ensures
            match r {
                Some(roots) => ascending(records@) && roots.wf() && roots.records() == records@,
                None => !ascending(records@),
            },
    {
        let mut i: usize = 1;
        while i < records.len()
            invariant
                1 <= i,
                forall|j: int|
                    0 <= j && j + 1 < i && j + 1 < records@.len() ==> (#[trigger] records@[j]).epoch.spec_lt(
                        records@[j + 1].epoch,
                    ),
            decreases records@.len() - i,
        {
            if !records[i - 1].epoch.lt(&records[i].epoch) {
                assert(!records@[i - 1].epoch.spec_lt(records@[i as int].epoch));
                return None;
            }
            i = i + 1;
        }
        proof {
            lemma_ascending_from_steps(records@);
        }
        Some(EpochRoots { records })
    }

    /// The records, in ascending order of epoch.
    pub fn to_records(&self) -> (out: Vec<EpochRoot>)
        ensures
            out@ == self.records(),
    {
        let mut out: Vec<EpochRoot> = Vec::new();
        let mut i: usize = 0;
        while i < self.records.len()
            invariant
                i <= self.records@.len(),
                out@ == self.records@.subrange(0, i as int),
            decreases self.records@.len() - i,
        {
            out.push(self.records[i]);
            assert(out@ =~= self.records@.subrange(0, i + 1));
            i = i + 1;
        }
        assert(self.records@.subrange(0, i as int) =~= self.records@);
        out
    }

    /// A mapping with the same records.
    pub fn copy(&self) -> (r: EpochRoots)
        requires
            self.wf(),
        ensures
            r.wf(),
            r.records() == self.records(),
            r@ == self@,
    {
        EpochRoots { records: self.to_records() }
    }

    /// The number of recorded epochs.
    pub fn len(&self) -> (n: usize)
        ensures
            n == self.records().len(),
    {
        self.records.len()
    }

    /// Record `i`, in ascending order of epoch.
    pub fn record(&self, i: usize) -> (r: EpochRoot)
        requires
            i < self.records().len(),
        ensures
            r == self.records()[i as int],
    {
        self.records[i]
    }

    /// The place of the first record whose epoch is not below `epoch`.
    fn position(&self, epoch: &EpochId) -> (p: usize)
        requires
            self.wf(),
        ensures
            p <= self.records().len(),
            forall|i: int| 0 <= i < p ==> (#[trigger] self.records()[i]).epoch.spec_lt(*epoch),
            forall|i: int|
                p <= i < self.records().len() ==> !(#[trigger] self.records()[i]).epoch.spec_lt(
                    *epoch,
                ),
    {
        let mut p: usize = self.records.len();
        while p > 0 && !self.records[p - 1].epoch.lt(epoch)
            invariant
                p <= self.records@.len(),
                ascending(self.records@),
                forall|i: int|
                    p <= i < self.records@.len() ==> !(#[trigger] self.records@[i]).epoch.spec_lt(
                        *epoch,
                    ),
            decreases p,
        {
            p = p - 1;
        }
        proof {
            if p > 0 {
                assert forall|i: int| 0 <= i < p implies (#[trigger] self.records@[i]).epoch.spec_lt(
                    *epoch,
                ) by {
                    if i < p - 1 {
                        assert(self.records@[i].epoch.spec_lt(self.records@[p - 1].epoch));
                    }
                }
            }
        }
        p
    }

    /// The root recorded for `epoch`: `None` where the epoch has no record.
    pub fn get(&self, epoch: &EpochId) -> (r: Option<Option<MerkleHash>>)
        requires
            self.wf(),
        ensures
            r == if self@.contains_key(*epoch) {
                Some(self@[*epoch])
            } else {
                None
            },
    {
        let p = self.position(epoch);
        if p < self.records.len() && self.records[p].epoch == *epoch {
            proof {
                lemma_roots_map_at(self.records@, p as int);
            }
            Some(self.records[p].root)
        } else {
            proof {
                if has_epoch(self.records@, *epoch) {
                    let i = choose|i: int|
                        0 <= i < self.records@.len() && (#[trigger] self.records@[i]).epoch == *epoch;
                    if i < p {
                        assert(self.records@[i].epoch.spec_lt(*epoch));
                    } else if i > p {
                        assert(self.records@[p as int].epoch.spec_lt(self.records@[i].epoch));
                        assert(!self.records@[p as int].epoch.spec_lt(*epoch));
                    }
                }
            }
            None
        }
    }

    /// Records `root` for `epoch`, unless the epoch has a record already.
    pub fn insert(&mut self, epoch: EpochId, root: Option<MerkleHash>) -> (r: Result<
        (),
        ErrorKind,
    >)
        requires
            old(self).wf(),
        ensures
            final(self).wf(),
            match r {
                Ok(_) => !old(self)@.contains_key(epoch) && final(self)@ == old(self)@.insert(
                    epoch,
                    root,
                ),
                Err(e) => e == ErrorKind::EpochAlreadyCommitted && old(self)@.contains_key(epoch)
                    && final(self).records() == old(self).records(),
            },
    {
        let p = self.position(&epoch);
        let ghost before = self.records@;
        if p < self.records.len() && self.records[p].epoch == epoch {
            assert(has_epoch(before, epoch));
            return Err(ErrorKind::EpochAlreadyCommitted);
        }
        self.records.insert(p, EpochRoot { epoch, root });
        proof {
            let after = self.records@;
            assert(!has_epoch(before, epoch)) by {
                if has_epoch(before, epoch) {
                    let i = choose|i: int|
                        0 <= i < before.len() && (#[trigger] before[i]).epoch == epoch;
                    if i < p {
                        assert(before[i].epoch.spec_lt(epoch));
                    } else if i > p {
                        assert(before[p as int].epoch.spec_lt(before[i].epoch));
                        assert(!before[p as int].epoch.spec_lt(epoch));
                    }
                }
            }
            assert(ascending(after)) by {
                assert forall|i: int, j: int| 0 <= i < j < after.len() implies (
                #[trigger] after[i]).epoch.spec_lt((#[trigger] after[j]).epoch) by {
                    let oi = if i < p {
                        i
                    } else {
                        i - 1
                    };
                    let oj = if j < p {
                        j
                    } else {
                        j - 1
                    };
                    if i == p {
                        assert(after[j] == before[oj]);
                        assert(!before[oj].epoch.spec_lt(epoch));
                        assert(before[oj].epoch != epoch) by {
                            if before[oj].epoch == epoch {
                                assert(has_epoch(before, epoch));
                            }
                        }
                    } else if j == p {
                        assert(after[i] == before[oi]);
                    } else {
                        assert(after[i] == before[oi]);
                        assert(after[j] == before[oj]);
                    }
                }
            }
            assert(roots_map(after) =~= roots_map(before).insert(epoch, root)) by {
                assert forall|e: EpochId| roots_map(after).contains_key(e) <==> roots_map(
                    before,
                ).insert(epoch, root).contains_key(e) by {
                    if has_epoch(after, e) {
                        let i = choose|i: int|
                            0 <= i < after.len() && (#[trigger] after[i]).epoch == e;
                        if i < p {
                            assert(before[i].epoch == e);
                        } else if i > p {
                            assert(before[i - 1].epoch == e);
                        }
                    }
                    if has_epoch(before, e) {
                        let i = choose|i: int|
                            0 <= i < before.len() && (#[trigger] before[i]).epoch == e;
                        if i < p {
                            assert(after[i].epoch == e);
                        } else {
                            assert(after[i + 1].epoch == e);
                        }
                    }
                    if e == epoch {
                        assert(after[p as int].epoch == e);
                    }
                }
                assert forall|e: EpochId| roots_map(after).contains_key(e) implies roots_map(
                    after,
                )[e] == roots_map(before).insert(epoch, root)[e] by {
                    let i = choose|i: int| 0 <= i < after.len() && (#[trigger] after[i]).epoch == e;
                    lemma_roots_map_at(after, i);
                    if i < p {
                        lemma_roots_map_at(before, i);
                    } else if i > p {
                        lemma_roots_map_at(before, i - 1);
                    }
                }
            }
        }
        Ok(())
    }

    /// Removes the records of `target` and of every epoch above it.
    pub fn rollback(&mut self, target: &EpochId)
        requires
            old(self).wf(),
        ensures
            final(self).wf(),
            final(self)@ == old(self)@.restrict(Set::new(|e: EpochId| e.spec_lt(*target))),
    {
        let p = self.position(target);
        let ghost before = self.records@;
        self.records.truncate(p);
        proof {
            let after = self.records@;
            assert(after =~= before.subrange(0, p as int));
            let kept = roots_map(before).restrict(Set::new(|e: EpochId| e.spec_lt(*target)));
            assert(roots_map(after) =~= kept) by {
                assert forall|e: EpochId| roots_map(after).contains_key(e) <==> kept.contains_key(
                    e,
                ) by {
                    if has_epoch(after, e) {
                        let i = choose|i: int|
                            0 <= i < after.len() && (#[trigger] after[i]).epoch == e;
                        assert(before[i].epoch == e);
                    }
                    if has_epoch(before, e) && e.spec_lt(*target) {
                        let i = choose|i: int|
                            0 <= i < before.len() && (#[trigger] before[i]).epoch == e;
                        if i >= p {
                            assert(!before[i].epoch.spec_lt(*target));
                        }
                        assert(after[i].epoch == e);
                    }
                }
                assert forall|e: EpochId| roots_map(after).contains_key(e) implies roots_map(
                    after,
                )[e] == kept[e] by {
                    let i = choose|i: int| 0 <= i < after.len() && (#[trigger] after[i]).epoch == e;
                    lemma_roots_map_at(after, i);
                    lemma_roots_map_at(before, i);
                }
            }
        }
    }
}

/// Records whose neighbours ascend are in ascending order.
proof fn lemma_ascending_from_steps(records: Seq<EpochRoot>)
    requires
        forall|j: int|
            0 <= j && j + 1 < records.len() ==> (#[trigger] records[j]).epoch.spec_lt(
                records[j + 1].epoch,
            ),
    ensures
        ascending(records),
{
    assert forall|i: int, j: int| 0 <= i < j < records.len() implies (
    #[trigger] records[i]).epoch.spec_lt((#[trigger] records[j]).epoch) by {
        lemma_ascending_pair(records, i, j);
    }
}

proof fn lemma_ascending_pair(records: Seq<EpochRoot>, i: int, j: int)
    requires
        forall|j: int|
            0 <= j && j + 1 < records.len() ==> (#[trigger] records[j]).epoch.spec_lt(
                records[j + 1].epoch,
            ),
        0 <= i < j < records.len(),
    ensures
        records[i].epoch.spec_lt(records[j].epoch),
    decreases j - i,
{
    if j > i + 1 {
        lemma_ascending_pair(records, i, j - 1);
        assert(records[j - 1].epoch.spec_lt(records[j - 1 + 1].epoch));
    } else {
        assert(records[i].epoch.spec_lt(records[i + 1].epoch));
    }
}

} // verus!
