//! Cache replacement: which resident node leaves when room is needed.
//!
//! The node memory manager numbers its resident nodes by slot, densely from
//! zero. An algorithm keeps one entry per slot. When a slot is given up, the
//! entry of the last slot takes its place, as the node there does.
//!
//! Two algorithms are here. `Lru` keeps the time of the last use of each slot
//! and picks the slot used longest ago, for which it looks at every slot.
//! `DeltaMptsCacheAlgorithm` approximates it at constant cost on average:
//! it keeps one bit per slot, which a use sets, and a hand that goes round
//! the slots; a slot whose bit is set gets a second chance, its bit is
//! cleared and the hand moves on, and the first slot whose bit is clear is
//! picked.

use vstd::prelude::*;

verus! {

/// What the node memory manager asks of a cache-replacement algorithm.
pub trait CacheAlgorithm: Sized {
    spec fn wf(&self) -> bool;

    /// The number of slots that have an entry: slots `0..entries()`.
    spec fn entries(&self) -> nat;

    /// The most entries that the algorithm keeps.
    spec fn capacity(&self) -> nat;

    /// The capacity as a number.
    fn entry_limit(&self) -> (n: u32)
        requires
            self.wf(),
        ensures
            n == self.capacity(),
    ;

    /// Adds an entry for the next slot, as the one used last.
    fn track(&mut self)
        requires
            old(self).wf(),
            old(self).entries() < old(self).capacity(),
        ensures
            final(self).wf(),
            final(self).entries() == old(self).entries() + 1,
            final(self).capacity() == old(self).capacity(),
    ;

    /// Notes that the node in `slot` was used.
    fn record_access(&mut self, slot: usize)
        requires
            old(self).wf(),
            slot < old(self).entries(),
        ensures
            final(self).wf(),
            final(self).entries() == old(self).entries(),
            final(self).capacity() == old(self).capacity(),
    ;

    /// Gives up the entry of `slot`; the entry of the last slot takes its place.
    fn forget(&mut self, slot: usize)
        requires
            old(self).wf(),
            slot < old(self).entries(),
        ensures
            final(self).wf(),
            final(self).entries() == old(self).entries() - 1,
            final(self).capacity() == old(self).capacity(),
    ;

    /// The slot whose node should leave next. Choosing may change what the
    /// algorithm keeps of each slot, but not which slots it keeps.
    fn choose_eviction_candidate(&mut self) -> (slot: usize)
        requires
            old(self).wf(),
            old(self).entries() > 0,
        ensures
            final(self).wf(),
            final(self).entries() == old(self).entries(),
            final(self).capacity() == old(self).capacity(),
            slot < final(self).entries(),
    ;
}

/// Least recently used: each slot carries the time of its last use, and the
/// slot with the earliest one leaves first. Choosing looks at every slot.
pub struct Lru {
    capacity: u32,
    clock: u64,
    last_use: Vec<u64>,
}

impl Lru {
    /// The time of the last use of each slot.
    pub closed spec fn stamps(&self) -> Seq<u64> {
        self.last_use@
    }

    /// The time that the next use gets.
    pub closed spec fn clock(&self) -> u64 {
        self.clock
    }

    pub closed spec fn spec_capacity(&self) -> u32 {
        self.capacity
    }

    /// An algorithm that keeps up to `capacity` entries, and none yet.
    pub fn new(capacity: u32) -> (r: Self)
        ensures
            r.wf(),
            r.entries() == 0,
            r.capacity() == capacity,
            r.stamps() == Seq::<u64>::empty(),
    {
        Lru { capacity, clock: 0, last_use: Vec::new() }
    }

    /// The time that a use gets now. When the clock has run out, every slot
    /// counts as used at time zero and the clock starts again behind it.
    fn now(&mut self) -> (t: u64)
        requires
            old(self).wf(),
        ensures
            final(self).wf(),
            final(self).spec_capacity() == old(self).spec_capacity(),
            t < u64::MAX,
            final(self).clock() == t,
            final(self).stamps().len() == old(self).stamps().len(),
            old(self).clock() < u64::MAX ==> t == old(self).clock() && final(self).stamps() == old(self).stamps(),
            old(self).clock() == u64::MAX ==> t == 1 && forall|j: int|
                0 <= j < final(self).stamps().len() ==> #[trigger] final(self).stamps()[j] == 0,
    {
        if self.clock < u64::MAX {
            return self.clock;
        }
        let n = self.last_use.len();
        let mut j: usize = 0;
        while j < n
            invariant
                j <= n,
                n == self.last_use@.len(),
                self.capacity == old(self).capacity,
                forall|k: int| 0 <= k < j ==> #[trigger] self.last_use@[k] == 0,
            decreases n - j,
        {
            self.last_use.set(j, 0);
            j = j + 1;
        }
        self.clock = 1;
        1
    }
}

impl CacheAlgorithm for Lru {
    closed spec fn wf(&self) -> bool {
        &&& self.last_use@.len() <= self.capacity
        &&& forall|j: int| 0 <= j < self.last_use@.len() ==> #[trigger] self.last_use@[j] < self.clock
    }

    closed spec fn entries(&self) -> nat {
        self.last_use@.len()
    }

    closed spec fn capacity(&self) -> nat {
        self.capacity as nat
    }

    fn entry_limit(&self) -> (n: u32) {
        self.capacity
    }

    fn track(&mut self)
        ensures
            final(self).stamps().len() == old(self).stamps().len() + 1,
            forall|j: int|
                0 <= j < final(self).stamps().len() ==> #[trigger] final(self).stamps()[j] <= final(self).stamps().last(),
    {
        let t = self.now();
        self.last_use.push(t);
        self.clock = t + 1;
    }

    fn record_access(&mut self, slot: usize)
        ensures
            final(self).stamps().len() == old(self).stamps().len(),
            forall|j: int|
                0 <= j < final(self).stamps().len() ==> #[trigger] final(self).stamps()[j] <= final(self).stamps()[slot as int],
            old(self).clock() < u64::MAX ==> final(self).stamps() == old(self).stamps().update(
                slot as int,
                old(self).clock(),
            ),
    {
        let t = self.now();
        self.last_use.set(slot, t);
        self.clock = t + 1;
    }

    fn forget(&mut self, slot: usize)
        ensures
            final(self).stamps() == old(self).stamps().update(
                slot as int,
                old(self).stamps().last(),
            ).drop_last(),
            final(self).clock() == old(self).clock(),
    {
        let _ = self.last_use.swap_remove(slot);
    }

    fn choose_eviction_candidate(&mut self) -> (slot: usize)
        ensures
            final(self).stamps() == old(self).stamps(),
            final(self).clock() == old(self).clock(),
            forall|j: int|
                0 <= j < old(self).stamps().len() ==> old(self).stamps()[slot as int] <= #[trigger] old(self).stamps()[j],
    {
        let mut best: usize = 0;
        let mut j: usize = 1;
        while j < self.last_use.len()
            invariant
                1 <= j <= self.last_use@.len(),
                best < j,
                forall|k: int| 0 <= k < j ==> self.last_use@[best as int] <= #[trigger] self.last_use@[k],
            decreases self.last_use@.len() - j,
        {
            if self.last_use[j] < self.last_use[best] {
                best = j;
            }
            j = j + 1;
        }
        best
    }
}

/// Least recently used with a second chance: one bit per slot says whether
/// the slot was used since the hand last passed it.
pub struct DeltaMptsCacheAlgorithm {
    capacity: u32,
    hand: usize,
    referenced: Vec<bool>,
}

impl DeltaMptsCacheAlgorithm {
    /// For each slot, whether it was used since the hand last passed it.
    pub closed spec fn referenced(&self) -> Seq<bool> {
        self.referenced@
    }

    /// The slot that the hand looks at next.
    pub closed spec fn hand(&self) -> int {
        self.hand as int
    }

    /// The slot at which the next choice starts to look: the hand's, or the
    /// first where the hand stands behind the last slot.
    pub closed spec fn first_look(&self) -> int {
        if self.hand >= self.referenced@.len() {
            0
        } else {
            self.hand as int
        }
    }

    /// An algorithm that keeps up to `capacity` entries, and none yet.
    pub fn new(capacity: u32) -> (r: Self)
        ensures
            r.wf(),
            r.entries() == 0,
            r.capacity() == capacity,
            r.referenced() == Seq::<bool>::empty(),
    {
        DeltaMptsCacheAlgorithm { capacity, hand: 0, referenced: Vec::new() }
    }
}

/// The steps that the hand takes from `start` to `slot`, round `n` slots.
pub open spec fn steps_to(start: int, slot: int, n: int) -> int {
    if slot >= start {
        slot - start
    } else {
        slot + n - start
    }
}

impl CacheAlgorithm for DeltaMptsCacheAlgorithm {
    closed spec fn wf(&self) -> bool {
        &&& self.referenced@.len() <= self.capacity
        &&& self.hand <= self.referenced@.len()
    }

    closed spec fn entries(&self) -> nat {
        self.referenced@.len()
    }

    closed spec fn capacity(&self) -> nat {
        self.capacity as nat
    }

    fn entry_limit(&self) -> (n: u32) {
        self.capacity
    }

    fn track(&mut self)
        ensures
            final(self).referenced() == old(self).referenced().push(true),
            final(self).hand() == old(self).hand(),
    {
        self.referenced.push(true);
    }

    fn record_access(&mut self, slot: usize)
        ensures
            final(self).referenced() == old(self).referenced().update(slot as int, true),
            final(self).hand() == old(self).hand(),
    {
        self.referenced.set(slot, true);
    }

    fn forget(&mut self, slot: usize)
        ensures
            final(self).referenced() == old(self).referenced().update(
                slot as int,
                old(self).referenced().last(),
            ).drop_last(),
            final(self).hand() == if old(self).hand() > final(self).referenced().len() {
                final(self).referenced().len() as int
            } else {
                old(self).hand()
            },
    {
        let _ = self.referenced.swap_remove(slot);
        if self.hand > self.referenced.len() {
            self.hand = self.referenced.len();
        }
    }

    /// The first slot from the hand on that was not used since the hand last
    /// passed it; the slots before it lose their bit. Where every slot was
    /// used, all lose their bit and the slot under the hand is picked.
    fn choose_eviction_candidate(&mut self) -> (slot: usize)
        ensures
            final(self).hand() == slot,
            !final(self).referenced()[slot as int],
            final(self).referenced().len() == old(self).referenced().len(),
            // every slot was used: all lose their bit, and the hand stays
            (forall|j: int|
                0 <= j < old(self).referenced().len() ==> #[trigger] old(self).referenced()[j]) ==> slot
                == old(self).first_look() && forall|j: int|
                0 <= j < final(self).referenced().len() ==> !#[trigger] final(self).referenced()[j],
            // else the first slot from the hand on that was not used is
            // picked, and the slots that the hand passed lose their bit
            !old(self).referenced()[slot as int] ==> forall|j: int|
                #![trigger final(self).referenced()[j]]
                #![trigger old(self).referenced()[j]]
                0 <= j < old(self).referenced().len() ==> if steps_to(
                    old(self).first_look(),
                    j,
                    old(self).referenced().len() as int,
                ) < steps_to(old(self).first_look(), slot as int, old(self).referenced().len() as int) {
                    old(self).referenced()[j] && !final(self).referenced()[j]
                } else {
                    final(self).referenced()[j] == old(self).referenced()[j]
                },
            !old(self).referenced()[slot as int] || forall|j: int|
                0 <= j < old(self).referenced().len() ==> #[trigger] old(self).referenced()[j],
    {
        let n = self.referenced.len();
        if self.hand >= n {
            self.hand = 0;
        }
        let start = self.hand;
        let mut steps: usize = 0;
        while steps < n
            invariant
                steps <= n,
                n == self.referenced@.len(),
                n == old(self).referenced@.len(),
                n > 0,
                n <= self.capacity,
                self.capacity == old(self).capacity,
                start < n,
                start == old(self).first_look(),
                self.hand < n,
                steps < n ==> steps_to(start as int, self.hand as int, n as int) == steps,
                steps == n ==> self.hand == start,
                forall|j: int|
                    #![trigger self.referenced@[j]]
                    #![trigger old(self).referenced@[j]]
                    0 <= j < n ==> if steps_to(start as int, j, n as int) < steps {
                        old(self).referenced@[j] && !self.referenced@[j]
                    } else {
                        self.referenced@[j] == old(self).referenced@[j]
                    },
            decreases n - steps,
        {
            let at = self.hand;
            if !self.referenced[at] {
                assert(!old(self).referenced@[at as int]);
                return at;
            }
            let ghost before = self.referenced@;
            self.referenced.set(at, false);
            self.hand = if at + 1 < n {
                at + 1
            } else {
                0
            };
            proof {
                assert forall|j: int|
                    #![trigger self.referenced@[j]]
                    #![trigger old(self).referenced@[j]]
                    0 <= j < n implies if steps_to(start as int, j, n as int) < steps + 1 {
                    old(self).referenced@[j] && !self.referenced@[j]
                } else {
                    self.referenced@[j] == old(self).referenced@[j]
                } by {
                    if j == at {
                        assert(before[j] == old(self).referenced@[j]);
                    } else {
                        assert(self.referenced@[j] == before[j]);
                        assert(steps_to(start as int, j, n as int) != steps);
                    }
                }
            }
            steps = steps + 1;
        }
        self.hand
    }
}

} // verus!
