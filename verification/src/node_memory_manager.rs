//! The node memory manager: a bounded pool of resident nodes over a backing
//! store. A node is found by its content hash; one that is not resident is
//! read from the store and takes a slot. When the pool has reached its soft
//! limit, the nodes that the cache algorithm picks leave it, in one batch,
//! until the pool is below its working-set size. Every resident node is in
//! the store, so a node that leaves is read again when it is next asked for.

use vstd::prelude::*;
use std::collections::HashMap;
use crate::cache_algorithm::CacheAlgorithm;
use crate::cache_algorithm::DeltaMptsCacheAlgorithm;
use crate::delta_db::DeltaDb;
use crate::node::MerkleHash;
use crate::node::NodeData;
use crate::node::TrieNode;

verus! {

broadcast use vstd::std_specs::hash::group_hash_axioms;

/// A resident node and the hash that names it.
pub struct CacheEntry {
    pub hash: MerkleHash,
    pub node: TrieNode,
}

/// The bytes that a run of resident nodes takes.
pub open spec fn total_size(entries: Seq<CacheEntry>) -> nat
    decreases entries.len(),
{
    if entries.len() == 0 {
        0
    } else {
        total_size(entries.drop_last()) + entries.last().node.size() as nat
    }
}

proof fn lemma_total_size_bound(entries: Seq<CacheEntry>)
    ensures
        total_size(entries) <= entries.len() * 0xffff_ffff_ffff_ffff,
    decreases entries.len(),
{
    if entries.len() > 0 {
        lemma_total_size_bound(entries.drop_last());
    }
}

proof fn lemma_total_size_update(entries: Seq<CacheEntry>, i: int, e: CacheEntry)
    requires
        0 <= i < entries.len(),
    ensures
        total_size(entries.update(i, e)) == total_size(entries) - entries[i].node.size()
            + e.node.size(),
    decreases entries.len(),
{
    if i == entries.len() - 1 {
        assert(entries.update(i, e).drop_last() =~= entries.drop_last());
    } else {
        lemma_total_size_update(entries.drop_last(), i, e);
        assert(entries.update(i, e).drop_last() =~= entries.drop_last().update(i, e));
    }
}

/// The bounds of a pool.
#[derive(Clone, Copy, Debug, PartialEq, Eq, Structural)]
pub struct PoolLimits {
    /// The most nodes that are resident at once.
    pub max_resident: u32,
    /// The most entries that the cache algorithm keeps.
    pub max_bookkeeping: u32,
    /// The resident nodes that an eviction pass leaves are fewer than this.
    pub working_set: u32,
    /// An eviction pass runs when this many nodes are resident.
    pub soft_limit: u32,
}

impl PoolLimits {
    /// The working set holds a node, the soft limit is no less, the pool can
    /// reach the soft limit, and the cache algorithm has an entry for each
    /// resident node.
    pub open spec fn valid(&self) -> bool {
        1 <= self.working_set <= self.soft_limit <= self.max_resident <= self.max_bookkeeping
    }

    pub fn is_valid(&self) -> (b: bool)
        ensures
            b == self.valid(),
    {
        1 <= self.working_set && self.working_set <= self.soft_limit && self.soft_limit
            <= self.max_resident && self.max_resident <= self.max_bookkeeping
    }
}

/// A pool of resident nodes with a cache-replacement algorithm.
pub struct NodeMemoryManager<A: CacheAlgorithm> {
    limits: PoolLimits,
    slots: Vec<CacheEntry>,
    index: HashMap<MerkleHash, usize>,
    resident_bytes: u128,
    cache_algorithm: A,
}

/// The pool of the delta tries, with least-recently-used replacement that
/// gives a second chance.
pub type DeltaMptsNodeMemoryManager = NodeMemoryManager<DeltaMptsCacheAlgorithm>;

impl<A: CacheAlgorithm> NodeMemoryManager<A> {
    /// The resident nodes, slot by slot.
    pub closed spec fn slots(&self) -> Seq<CacheEntry> {
        self.slots@
    }

    /// The slot of each resident node, by its hash.
    pub closed spec fn slot_index(&self) -> Map<MerkleHash, usize> {
        self.index@
    }

    pub closed spec fn limits(&self) -> PoolLimits {
        self.limits
    }

    pub closed spec fn spec_resident_bytes(&self) -> nat {
        self.resident_bytes as nat
    }

    pub closed spec fn algorithm(&self) -> A {
        self.cache_algorithm
    }

    /// The resident nodes, by hash.
    pub open spec fn resident(&self) -> Map<MerkleHash, NodeData> {
        Map::new(
            |h: MerkleHash| self.slot_index().contains_key(h),
            |h: MerkleHash| self.slots()[self.slot_index()[h] as int].node@,
        )
    }

    /// The number of resident nodes.
    pub open spec fn spec_resident_count(&self) -> nat {
        self.slots().len()
    }

    /// The pool is within its limits; the hash of each slot leads back to the
    /// slot, and each hash of the index to a slot that holds it, so no stale
    /// slot is ever handed out; and the bytes are counted.
    pub open spec fn wf(&self) -> bool {
        &&& self.limits().valid()
        &&& self.slots().len() <= self.limits().max_resident
        &&& self.algorithm().wf()
        &&& self.algorithm().entries() == self.slots().len()
        &&& self.algorithm().capacity() == self.limits().max_bookkeeping
        &&& forall|i: int|
            0 <= i < self.slots().len() ==> (#[trigger] self.slots()[i]).node.wf()
                && self.slot_index().contains_key(self.slots()[i].hash)
                && self.slot_index()[self.slots()[i].hash] == i
        &&& forall|h: MerkleHash| #[trigger]
            self.slot_index().contains_key(h) ==> self.slot_index()[h] < self.slots().len()
                && self.slots()[self.slot_index()[h] as int].hash == h
        &&& self.spec_resident_bytes() == total_size(self.slots())
    }

    /// Every resident node is in the store, as the store holds it.
    pub open spec fn coherent(&self, nodes: Map<MerkleHash, NodeData>) -> bool {
        self.resident().submap_of(nodes)
    }

    /// An empty pool with the given bounds.
    pub fn new(
        max_resident: u32,
        max_bookkeeping: u32,
        working_set: u32,
        soft_limit: u32,
        cache_algorithm: A,
    ) -> (r: Self)
        requires
            (PoolLimits { max_resident, max_bookkeeping, working_set, soft_limit }).valid(),
            cache_algorithm.wf(),
            cache_algorithm.entries() == 0,
            cache_algorithm.capacity() == max_bookkeeping,
        ensures
            r.wf(),
            r.limits() == (PoolLimits { max_resident, max_bookkeeping, working_set, soft_limit }),
            r.resident() == Map::<MerkleHash, NodeData>::empty(),
            r.spec_resident_count() == 0,
    {
        let r = NodeMemoryManager {
            limits: PoolLimits { max_resident, max_bookkeeping, working_set, soft_limit },
            slots: Vec::new(),
            index: HashMap::new(),
            resident_bytes: 0,
            cache_algorithm,
        };
        assert(r.resident() =~= Map::<MerkleHash, NodeData>::empty());
        r
    }

    /// The number of resident nodes.
    pub fn resident_count(&self) -> (n: usize)
        ensures
            n == self.spec_resident_count(),
    {
        self.slots.len()
    }

    /// The bytes that the resident nodes take, as far as a `usize` can say.
    pub fn size_of(&self) -> (n: usize)
        requires
            self.wf(),
        ensures
            n == if total_size(self.slots()) <= usize::MAX {
                total_size(self.slots())
            } else {
                usize::MAX as nat
            },
    {
        if self.resident_bytes > usize::MAX as u128 {
            usize::MAX
        } else {
            self.resident_bytes as usize
        }
    }

    /// The slot of the node under `h`, if it is resident.
    pub fn slot_of(&self, h: MerkleHash) -> (r: Option<usize>)
        requires
            self.wf(),
        ensures
            match r {
                Some(slot) => self.resident().contains_key(h) && slot < self.slots().len()
                    && self.slots()[slot as int].hash == h,
                None => !self.resident().contains_key(h),
            },
    {
        match self.index.get(&h) {
            Some(slot) => Some(*slot),
            None => None,
        }
    }

    /// The node in `slot`.
    pub fn node(&self, slot: usize) -> (node: &TrieNode)
        requires
            self.wf(),
            slot < self.slots().len(),
        ensures
            node.wf(),
            *node == self.slots()[slot as int].node,
            node@ == self.resident()[self.slots()[slot as int].hash],
    {
        &self.slots[slot].node
    }

    /// Makes the node in the slot that the cache algorithm picks leave the
    /// pool. The node of the last slot takes the slot given up.
    fn evict_one(&mut self)
        requires
            old(self).wf(),
            old(self).slots().len() > 0,
        ensures
            final(self).wf(),
            final(self).limits() == old(self).limits(),
            final(self).slots().len() == old(self).slots().len() - 1,
            final(self).resident().submap_of(old(self).resident()),
    {
        let victim = self.cache_algorithm.choose_eviction_candidate();
        let last = self.slots.len() - 1;
        let ghost before = self.slots@;
        let ghost old_index = self.index@;
        proof {
            lemma_total_size_update(before, victim as int, before.last());
        }
        let entry = self.slots.swap_remove(victim);
        self.cache_algorithm.forget(victim);
        self.index.remove(&entry.hash);
        if victim < last {
            let moved = self.slots[victim].hash;
            assert(moved == before[last as int].hash);
            assert(moved != entry.hash);
            self.index.insert(moved, victim);
        }
        self.resident_bytes = self.resident_bytes - entry.node.size() as u128;
        proof {
            assert forall|i: int| 0 <= i < self.slots().len() implies (
            #[trigger] self.slots()[i]).node.wf() && self.slot_index().contains_key(
                self.slots()[i].hash,
            ) && self.slot_index()[self.slots()[i].hash] == i by {
                if i == victim {
                    assert(self.slots()[i] == before[last as int]);
                } else {
                    assert(self.slots()[i] == before[i]);
                    assert(old_index[before[i].hash] == i);
                }
            }
            assert forall|h: MerkleHash| #[trigger]
                self.slot_index().contains_key(h) implies self.slot_index()[h]
                < self.slots().len() && self.slots()[self.slot_index()[h] as int].hash == h by {
                if victim < last && h == before[last as int].hash {
                } else {
                    assert(old_index.contains_key(h));
                    let s = old_index[h] as int;
                    assert(before[s].hash == h);
                    assert(s != victim);
                    if s == last {
                        assert(victim == last);
                    }
                }
            }
            assert forall|h: MerkleHash| #[trigger] self.resident().contains_key(h) implies old(self).resident().contains_key(h) && old(self).resident()[h] == self.resident()[h] by {
                assert(old_index.contains_key(h));
                let s = old_index[h] as int;
                assert(before[s].hash == h);
            }
        }
    }

    /// Runs an eviction pass if the pool has reached its soft limit: nodes
    /// leave until fewer are resident than the working set holds.
    pub fn evict_if_needed(&mut self)
        requires
            old(self).wf(),
        ensures
            final(self).wf(),
            final(self).limits() == old(self).limits(),
            final(self).resident().submap_of(old(self).resident()),
            final(self).spec_resident_count() == if old(self).spec_resident_count() >= old(self).limits().soft_limit {
                (old(self).limits().working_set - 1) as nat
            } else {
                old(self).spec_resident_count()
            },
            old(self).spec_resident_count() < old(self).limits().soft_limit ==> final(self).slots()
                == old(self).slots() && final(self).resident() == old(self).resident(),
    {
        if self.slots.len() < self.limits.soft_limit as usize {
            return ;
        }
        while self.slots.len() >= self.limits.working_set as usize
            invariant
                self.wf(),
                self.limits() == old(self).limits(),
                self.resident().submap_of(old(self).resident()),
                self.slots().len() >= self.limits().working_set - 1,
            decreases self.slots().len(),
        {
            let ghost prev = self.resident();
            self.evict_one();
            assert forall|h: MerkleHash| #[trigger] self.resident().contains_key(h) implies old(self).resident().contains_key(h) && old(self).resident()[h] == self.resident()[h] by {
                assert(prev.contains_key(h));
            }
        }
    }

    /// Makes the node under `h` resident in a slot, where it counts as used
    /// last. The pool has room: the caller ran `evict_if_needed`.
    fn place(&mut self, h: MerkleHash, node: TrieNode) -> (slot: usize)
        requires
            old(self).wf(),
            node.wf(),
            !old(self).resident().contains_key(h),
            old(self).slots().len() < old(self).limits().max_resident,
        ensures
            final(self).wf(),
            final(self).limits() == old(self).limits(),
            slot == old(self).slots().len(),
            final(self).slots() == old(self).slots().push(CacheEntry { hash: h, node }),
            final(self).resident() == old(self).resident().insert(h, node@),
    {
        let slot = self.slots.len();
        let ghost before = self.slots@;
        let ghost old_index = self.index@;
        proof {
            lemma_total_size_bound(before);
            assert(before.push(CacheEntry { hash: h, node }).drop_last() =~= before);
        }
        self.resident_bytes = self.resident_bytes + node.size() as u128;
        self.slots.push(CacheEntry { hash: h, node });
        self.index.insert(h, slot);
        self.cache_algorithm.track();
        proof {
            assert forall|i: int| 0 <= i < self.slots().len() implies (
            #[trigger] self.slots()[i]).node.wf() && self.slot_index().contains_key(
                self.slots()[i].hash,
            ) && self.slot_index()[self.slots()[i].hash] == i by {
                if i < slot {
                    assert(self.slots()[i] == before[i]);
                    assert(old_index.contains_key(before[i].hash));
                }
            }
            assert forall|g: MerkleHash| #[trigger]
                self.slot_index().contains_key(g) implies self.slot_index()[g]
                < self.slots().len() && self.slots()[self.slot_index()[g] as int].hash == g by {
                if g != h {
                    assert(old_index.contains_key(g));
                }
            }
            assert(self.resident() =~= old(self).resident().insert(h, node@)) by {
                assert forall|g: MerkleHash| self.resident().contains_key(g) implies self.resident()[g]
                    == old(self).resident().insert(h, node@)[g] by {
                    if g != h {
                        assert(old_index.contains_key(g));
                    }
                }
            }
        }
        slot
    }

    /// Makes a persisted node resident without reading the store, and gives
    /// its slot: the slot that it has, where it is resident already, or else
    /// a slot of its own, for which room is made if the pool is full.
    pub fn insert(&mut self, db: &DeltaDb, h: MerkleHash, node: TrieNode) -> (slot: usize)
        requires
            old(self).wf(),
            old(self).coherent(db.nodes()),
            node.wf(),
            db.nodes().contains_key(h),
            db.nodes()[h] == node@,
        ensures
            final(self).wf(),
            final(self).coherent(db.nodes()),
            final(self).limits() == old(self).limits(),
            slot < final(self).slots().len(),
            final(self).slots()[slot as int].hash == h,
            final(self).slots()[slot as int].node@ == db.nodes()[h],
            final(self).resident().contains_key(h),
            old(self).resident().contains_key(h) ==> final(self).slots() == old(self).slots()
                && slot == old(self).slot_index()[h],
            final(self).resident().submap_of(old(self).resident().insert(h, db.nodes()[h])),
    {
        match self.index.get(&h) {
            Some(slot) => {
                let slot = *slot;
                assert(self.resident().contains_key(h));
                assert(self.resident().dom().contains(h));
                slot
            },
            None => {
                assert(!self.resident().contains_key(h));
                self.evict_if_needed();
                let ghost evicted = self.resident();
                assert(!evicted.contains_key(h)) by {
                    if evicted.contains_key(h) {
                        assert(old(self).resident().contains_key(h));
                    }
                }
                let slot = self.place(h, node);
                assert forall|g: MerkleHash| #[trigger]
                    self.resident().contains_key(g) implies db.nodes().contains_key(g)
                    && self.resident()[g] == db.nodes()[g] by {
                    if g != h {
                        assert(evicted.insert(h, node@).contains_key(g));
                        assert(evicted.contains_key(g));
                        assert(evicted.dom().contains(g));
                        assert(old(self).resident().dom().contains(g));
                        assert(evicted[g] == old(self).resident()[g]);
                        assert(db.nodes().dom().contains(g));
                        assert(old(self).resident()[g] == db.nodes()[g]);
                    } else {
                        assert(self.resident()[h] == node@);
                    }
                }
                slot
            },
        }
    }

    /// Makes the node under `h` resident, reading it from the store unless it
    /// is resident already, notes its use, and gives its slot. The slot holds
    /// the node until the pool is next changed.
    pub fn load(&mut self, db: &DeltaDb, h: MerkleHash) -> (slot: usize)
        requires
            old(self).wf(),
            old(self).coherent(db.nodes()),
            db.wf(),
            db.nodes().contains_key(h),
        ensures
            final(self).wf(),
            final(self).coherent(db.nodes()),
            final(self).limits() == old(self).limits(),
            slot < final(self).slots().len(),
            final(self).slots()[slot as int].hash == h,
            final(self).slots()[slot as int].node@ == db.nodes()[h],
            final(self).resident().contains_key(h),
            // a node that is resident is found without a read, and nothing
            // leaves for it
            old(self).resident().contains_key(h) ==> final(self).slots() == old(self).slots()
                && slot == old(self).slot_index()[h],
            // else nodes may leave to make room, and none but this one comes
            final(self).resident().submap_of(old(self).resident().insert(h, db.nodes()[h])),
    {
        match self.index.get(&h) {
            Some(slot) => {
                let slot = *slot;
                self.cache_algorithm.record_access(slot);
                assert(self.resident().contains_key(h));
                assert(self.resident() =~= old(self).resident());
                slot
            },
            None => {
                assert(!self.resident().contains_key(h));
                self.evict_if_needed();
                let ghost evicted = self.resident();
                assert(!evicted.contains_key(h)) by {
                    if evicted.contains_key(h) {
                        assert(old(self).resident().contains_key(h));
                    }
                }
                let node = db.load(h);
                let slot = self.place(h, node);
                assert forall|g: MerkleHash| #[trigger]
                    self.resident().contains_key(g) implies db.nodes().contains_key(g)
                    && self.resident()[g] == db.nodes()[g] by {
                    if g != h {
                        assert(evicted.insert(h, node@).contains_key(g));
                        assert(evicted.contains_key(g));
                        assert(evicted.dom().contains(g));
                        assert(old(self).resident().dom().contains(g));
                        assert(evicted[g] == old(self).resident()[g]);
                        assert(db.nodes().dom().contains(g));
                        assert(old(self).resident()[g] == db.nodes()[g]);
                    } else {
                        assert(self.resident()[h] == node@);
                    }
                }
                slot
            },
        }
    }
}

/// Eviction correctness: whatever leaves the pool, a node that was resident
/// is in the store as it was in the pool, so reading it again by its hash
/// gives the same content.
pub proof fn law_evicted_node_is_stored<A: CacheAlgorithm>(
    before: NodeMemoryManager<A>,
    after: NodeMemoryManager<A>,
    nodes: Map<MerkleHash, NodeData>,
    h: MerkleHash,
)
    requires
        before.coherent(nodes),
        before.resident().contains_key(h),
        after.resident().submap_of(before.resident()),
    ensures
        nodes.contains_key(h),
        nodes[h] == before.resident()[h],
        after.coherent(nodes),
        after.resident().contains_key(h) ==> after.resident()[h] == nodes[h],
{
    assert(before.resident().dom().contains(h));
    assert forall|g: MerkleHash| #[trigger] after.resident().dom().contains(g) implies nodes.dom().contains(
        g,
    ) && after.resident()[g] == nodes[g] by {
        assert(before.resident().dom().contains(g));
        assert(after.resident()[g] == before.resident()[g]);
        assert(nodes.dom().contains(g));
        assert(before.resident()[g] == nodes[g]);
    }
    if after.resident().contains_key(h) {
        assert(after.resident().dom().contains(h));
    }
}

} // verus!
