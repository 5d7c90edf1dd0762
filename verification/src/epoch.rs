//! The reclamation service the epoch-deferred queue delegates to.
//!
//! A caller pins itself before touching shared cells and receives a `Guard`
//! stamped with the service's current clock; it unpins the guard when the
//! operation is done. Retiring a cell (`defer_destroy`) records the cell's
//! slot index together with the clock at retirement and advances the clock,
//! so later guards carry strictly larger stamps. `collect` hands back the
//! slots that are provably out of reach: exactly those whose retirement
//! stamp is below the stamp of every guard still pinned — every guard that
//! was active at or before the retirement has been dropped, so no holder of
//! a path to the cell remains. Retirement stamps grow along the deferred
//! list, so the collectable slots are always a prefix of it.

use vstd::prelude::*;

verus! {

/// A stamp of one guard still pinned clears a retirement only if the guard
/// was pinned strictly after the retirement; a retirement is cleared when
/// every active guard clears it.
pub open spec fn cleared(stamp: u64, active: Seq<u64>) -> bool {
    forall|i: int| 0 <= i < active.len() ==> stamp < #[trigger] active[i]
}

/// Token handed out by `pin`; holding it keeps every cell retired at or
/// after the pin from being collected.
pub struct Guard {
    stamp: u64,
}

impl Guard {
    /// The service clock at the moment this guard was pinned.
    pub closed spec fn spec_stamp(&self) -> u64 {
        self.stamp
    }
}

pub struct EpochService {
    clock: u64,
    active: Vec<u64>,
    deferred_stamps: Vec<u64>,
    deferred_slots: Vec<usize>,
}

impl EpochService {
    /// The clock: one tick per retirement.
    pub closed spec fn spec_clock(&self) -> u64 {
        self.clock
    }

    /// Stamps of the guards currently pinned, oldest pin first.
    pub closed spec fn spec_active(&self) -> Seq<u64> {
        self.active@
    }

    /// Slots whose destruction is deferred, in retirement order.
    pub closed spec fn spec_deferred_slots(&self) -> Seq<usize> {
        self.deferred_slots@
    }

    /// The retirement stamp of each deferred slot.
    pub closed spec fn spec_deferred_stamps(&self) -> Seq<u64> {
        self.deferred_stamps@
    }

    /// Service invariant: the two deferred columns line up, retirement
    /// stamps grow strictly and sit below the clock, and no guard's stamp is
    /// ahead of the clock.
    pub closed spec fn wf(&self) -> bool {
        &&& self.deferred_stamps@.len() == self.deferred_slots@.len()
        &&& forall|i: int, j: int|
            0 <= i < j < self.deferred_stamps@.len() ==> self.deferred_stamps@[i]
                < self.deferred_stamps@[j]
        &&& forall|i: int|
            0 <= i < self.deferred_stamps@.len() ==> (#[trigger] self.deferred_stamps@[i])
                < self.clock
        &&& forall|i: int|
            0 <= i < self.active@.len() ==> (#[trigger] self.active@[i]) <= self.clock
    }

    pub fn deferred_count(&self) -> (n: usize)
        requires
            self.wf(),
        ensures
            n == self.spec_deferred_slots().len(),
    {
        self.deferred_slots.len()
    }

    pub fn active_count(&self) -> (n: usize)
        ensures
            n == self.spec_active().len(),
    {
        self.active.len()
    }

    pub fn clock_value(&self) -> (c: u64)
        ensures
            c == self.spec_clock(),
    {
        self.clock
    }

    /// A fresh service: clock at zero, no guard pinned, nothing deferred.
    pub fn new() -> (s: EpochService)
        ensures
            s.wf(),
            s.spec_clock() == 0,
            s.spec_active() == Seq::<u64>::empty(),
            s.spec_deferred_slots() == Seq::<usize>::empty(),
            s.spec_deferred_stamps() == Seq::<u64>::empty(),
    {
        EpochService { clock: 0, active: Vec::new(), deferred_stamps: Vec::new(), deferred_slots: Vec::new() }
    }

    /// Pin: enter a critical section. The guard carries the current clock,
    /// so it blocks collection of everything retired from now on.
    pub fn pin(&mut self) -> (g: Guard)
        requires
            old(self).wf(),
        ensures
            final(self).wf(),
            g.spec_stamp() == old(self).spec_clock(),
            final(self).spec_active() == old(self).spec_active().push(g.spec_stamp()),
            final(self).spec_clock() == old(self).spec_clock(),
            final(self).spec_deferred_slots() == old(self).spec_deferred_slots(),
            final(self).spec_deferred_stamps() == old(self).spec_deferred_stamps(),
    {
        let g = Guard { stamp: self.clock };
        self.active.push(g.stamp);
        g
    }

    /// Unpin: leave the critical section, giving the guard back. The latest
    /// pinned occurrence of the guard's stamp is retired from the active
    /// set.
    pub fn unpin(&mut self, g: Guard)
        requires
            old(self).wf(),
            old(self).spec_active().contains(g.spec_stamp()),
        ensures
            final(self).wf(),
            final(self).spec_clock() == old(self).spec_clock(),
            final(self).spec_deferred_slots() == old(self).spec_deferred_slots(),
            final(self).spec_deferred_stamps() == old(self).spec_deferred_stamps(),
            final(self).spec_active().len() == old(self).spec_active().len() - 1,
            old(self).spec_active().last() == g.spec_stamp() ==> final(self).spec_active() == old(
                self,
            ).spec_active().drop_last(),
            exists|idx: int|
                0 <= idx < old(self).spec_active().len() && old(self).spec_active()[idx]
                    == g.spec_stamp() && final(self).spec_active() == old(self).spec_active().remove(
                    idx,
                ),
    {
        let ghost act0 = self.active@;
        let mut k = self.active.len();
        while k > 0 && self.active[k - 1] != g.stamp
            invariant
                k <= act0.len(),
                self.active@ == act0,
                act0.contains(g.spec_stamp()),
                forall|w: int| k <= w < act0.len() ==> act0[w] != g.spec_stamp(),
                exists|w: int| 0 <= w < k && act0[w] == g.spec_stamp(),
            decreases k,
        {
            k = k - 1;
            proof {
                if forall|w: int| 0 <= w < k ==> act0[w] != g.spec_stamp() {
                    let w = choose|w: int| 0 <= w < act0.len() && act0[w] == g.spec_stamp();
                    assert(false);
                }
            }
        }
        let idx = k - 1;
        self.active.remove(idx);
        proof {
            if act0.last() == g.spec_stamp() {
                assert(self.active@ =~= act0.drop_last());
            }
        }
    }

    /// Retire a slot: its destruction is deferred to the current clock tick,
    /// and the clock advances. The clock bound is a machine limit.
    pub fn defer_destroy(&mut self, g: &Guard, slot: usize)
        requires
            old(self).wf(),
            old(self).spec_clock() < u64::MAX,
        ensures
            final(self).wf(),
            final(self).spec_clock() == old(self).spec_clock() + 1,
            final(self).spec_active() == old(self).spec_active(),
            final(self).spec_deferred_slots() == old(self).spec_deferred_slots().push(slot),
            final(self).spec_deferred_stamps() == old(self).spec_deferred_stamps().push(
                old(self).spec_clock(),
            ),
    {
        self.deferred_stamps.push(self.clock);
        self.deferred_slots.push(slot);
        self.clock = self.clock + 1;
    }

    /// Whether every guard still pinned was pinned strictly after `stamp`.
    fn stamp_cleared(&self, stamp: u64) -> (r: bool)
        ensures
            r == cleared(stamp, self.spec_active()),
    {
        let mut i: usize = 0;
        while i < self.active.len()
            invariant
                i <= self.active@.len(),
                forall|w: int| 0 <= w < i ==> stamp < #[trigger] self.active@[w],
            decreases self.active@.len() - i,
        {
            if self.active[i] <= stamp {
                return false;
            }
            i = i + 1;
        }
        true
    }

    /// Collect: remove and return the slots whose retirement every pinned
    /// guard has provably outlived — the longest prefix of the deferred list
    /// whose stamps are cleared by every active guard. A slot is never
    /// handed back while a guard pinned at or before its retirement is still
    /// active.
    #[verifier::loop_isolation(false)]
    pub fn collect(&mut self) -> (ready: Vec<usize>)
        requires
            old(self).wf(),
        ensures
            final(self).wf(),
            final(self).spec_clock() == old(self).spec_clock(),
            final(self).spec_active() == old(self).spec_active(),
            ready@ == old(self).spec_deferred_slots().take(ready@.len() as int),
            final(self).spec_deferred_slots() == old(self).spec_deferred_slots().skip(
                ready@.len() as int,
            ),
            final(self).spec_deferred_stamps() == old(self).spec_deferred_stamps().skip(
                ready@.len() as int,
            ),
            ready@.len() <= old(self).spec_deferred_slots().len(),
            forall|i: int|
                0 <= i < ready@.len() ==> cleared(
                    #[trigger] old(self).spec_deferred_stamps()[i],
                    old(self).spec_active(),
                ),
            ready@.len() < old(self).spec_deferred_slots().len() ==> !cleared(
                old(self).spec_deferred_stamps()[ready@.len() as int],
                old(self).spec_active(),
            ),
            old(self).spec_active().len() == 0 ==> ready@.len() == old(
                self,
            ).spec_deferred_slots().len(),
    {
        let ghost slots0 = self.deferred_slots@;
        let ghost stamps0 = self.deferred_stamps@;
        let ghost act0 = self.active@;
        let mut ready: Vec<usize> = Vec::new();
        let ghost mut t: int = 0;
        proof {
            assert(slots0.skip(0) =~= slots0);
            assert(stamps0.skip(0) =~= stamps0);
            assert(slots0.take(0) =~= ready@);
        }
        while self.deferred_stamps.len() > 0 && self.stamp_cleared(self.deferred_stamps[0])
            invariant
                0 <= t <= slots0.len(),
                ready@.len() == t,
                self.active@ == act0,
                self.clock == old(self).clock,
                self.deferred_slots@ == slots0.skip(t),
                self.deferred_stamps@ == stamps0.skip(t),
                ready@ == slots0.take(t),
                forall|i: int| 0 <= i < t ==> cleared(#[trigger] stamps0[i], act0),
                self.deferred_stamps@.len() == self.deferred_slots@.len(),
            decreases self.deferred_stamps@.len(),
        {
            proof {
                assert(stamps0.skip(t)[0] == stamps0[t]);
            }
            let slot = self.deferred_slots.remove(0);
            self.deferred_stamps.remove(0);
            ready.push(slot);
            proof {
                assert(self.deferred_slots@ =~= slots0.skip(t + 1));
                assert(self.deferred_stamps@ =~= stamps0.skip(t + 1));
                assert(ready@ =~= slots0.take(t + 1));
                t = t + 1;
            }
        }
        proof {
            if t < slots0.len() {
                assert(stamps0.skip(t)[0] == stamps0[t]);
                if act0.len() == 0 {
                    assert(cleared(stamps0[t], act0));
                }
            }
        }
        ready
    }
}

} // verus!
