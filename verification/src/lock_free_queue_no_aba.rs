//! The two-pointer FIFO with hazard-counter reclamation: a dequeued slot's
//! storage is released only once no reader holds the slot's hazard counter.
//!
//! The chain algorithm is the one from `lock_free_queue`; the difference is
//! the reclamation discipline. Every cell carries a counter. A reader that is
//! about to follow links out of the sentinel first raises the sentinel's
//! counter, and only an increment observed from zero counts as an
//! acquisition (`guard_head`); it lowers the counter again when done
//! (`unguard`). Retirement honors the counter: a dequeue that unlinks the old
//! sentinel releases its storage only when the counter is zero, and
//! otherwise parks the cell in a quarantine list. `reclaim_pending` releases
//! the parked cells whose counters have since returned to zero. A cell is
//! therefore never released while a reader's increment on it is outstanding,
//! which is what rules out the reuse-under-the-reader hazard the immediate
//! discipline suffers from.

use vstd::prelude::*;

use crate::node::{chain_ok, chain_values, Node, NIL};
use crate::reclaim::NodeState;

verus! {

pub struct Queue<T> {
    arena: Vec<Node<T>>,
    head: usize,
    tail: usize,
    freed: usize,
    pending: Vec<usize>,
    chain: Ghost<Seq<usize>>,
}

impl<T> View for Queue<T> {
    type V = Seq<T>;

    closed spec fn view(&self) -> Seq<T> {
        chain_values(self.arena@, self.chain@)
    }
}

impl<T> Queue<T> {
    /// Structural invariant. Beyond the chain shape shared with the
    /// immediate-reclamation queue: exactly the parked cells are
    /// `Quarantined`, a released cell has no outstanding hazard, every
    /// counter is either clear or held by the single reader the
    /// increment-from-zero discipline admits, and the slot count splits into
    /// chain cells, parked cells, and released slots.
    pub closed spec fn wf(&self) -> bool {
        &&& chain_ok(self.arena@, self.chain@)
        &&& self.chain@[0] == self.head
        &&& self.chain@.last() == self.tail
        &&& forall|j: int|
            0 <= j < self.arena@.len() ==> ((#[trigger] self.arena@[j]).state == NodeState::Linked
                <==> self.chain@.contains(j as usize))
        &&& forall|j: int|
            0 <= j < self.arena@.len() ==> ((#[trigger] self.arena@[j]).state
                == NodeState::Quarantined <==> self.pending@.contains(j as usize))
        &&& forall|j: int|
            0 <= j < self.arena@.len() ==> ((#[trigger] self.arena@[j]).state == NodeState::Linked
                || self.arena@[j].state == NodeState::Quarantined || self.arena@[j].state
                == NodeState::Freed)
        &&& forall|j: int|
            0 <= j < self.arena@.len() && (#[trigger] self.arena@[j]).state != NodeState::Linked
                ==> self.arena@[j].value is None
        &&& forall|j: int|
            0 <= j < self.arena@.len() && (#[trigger] self.arena@[j]).state == NodeState::Freed
                ==> self.arena@[j].refct == 0
        &&& forall|j: int| 0 <= j < self.arena@.len() ==> (#[trigger] self.arena@[j]).refct <= 1
        &&& forall|i: int| 0 <= i < self.pending@.len() ==> (#[trigger] self.pending@[i]) < self.arena@.len()
        &&& forall|i: int, j: int| 0 <= i < j < self.pending@.len() ==> self.pending@[i] != self.pending@[j]
        &&& self.arena@.len() == self.chain@.len() + self.pending@.len() + self.freed
        &&& self.arena@.len() <= usize::MAX
    }

    /// How many slots this queue has ever allocated, the sentinel included.
    pub closed spec fn spec_allocated(&self) -> nat {
        self.arena@.len()
    }

    /// How many slots have had their storage released.
    pub closed spec fn spec_released(&self) -> nat {
        self.freed as nat
    }

    /// The parked (quarantined) slots, in the order they were retired.
    pub closed spec fn spec_pending_slots(&self) -> Seq<usize> {
        self.pending@
    }

    /// The slot index of the current sentinel.
    pub closed spec fn spec_front(&self) -> usize {
        self.head
    }

    /// Whether a reader's hazard increment on slot `i` is outstanding.
    pub closed spec fn spec_guarded(&self, i: int) -> bool {
        0 <= i < self.arena@.len() && self.arena@[i].refct == 1
    }

    /// Whether slot `i` has been released.
    pub closed spec fn spec_freed(&self, i: int) -> bool {
        0 <= i < self.arena@.len() && self.arena@[i].state == NodeState::Freed
    }

    /// Whether the sentinel's hazard counter is held.
    pub open spec fn front_guarded(&self) -> bool {
        self.spec_guarded(self.spec_front() as int)
    }

    /// Whether no hazard counter is outstanding anywhere.
    pub open spec fn no_hazards(&self) -> bool {
        forall|i: int| !self.spec_guarded(i)
    }

    pub fn allocated(&self) -> (n: usize)
        ensures
            n == self.spec_allocated(),
    {
        self.arena.len()
    }

    pub fn released(&self) -> (n: usize)
        ensures
            n == self.spec_released(),
    {
        self.freed
    }

    pub fn pending_count(&self) -> (n: usize)
        ensures
            n == self.spec_pending_slots().len(),
    {
        self.pending.len()
    }

    /// Whether no reader holds a hazard counter on any slot.
    pub fn hazard_free(&self) -> (r: bool)
        ensures
            r == self.no_hazards(),
    {
        let mut i: usize = 0;
        while i < self.arena.len()
            invariant
                i <= self.arena@.len(),
                forall|w: int| 0 <= w < i ==> (#[trigger] self.arena@[w]).refct != 1,
            decreases self.arena@.len() - i,
        {
            if self.arena[i].refct == 1 {
                assert(self.spec_guarded(i as int));
                return false;
            }
            i = i + 1;
        }
        true
    }

    /// Constructs an empty queue: one sentinel cell, nothing released,
    /// nothing parked, no hazard held.
    pub fn new() -> (q: Queue<T>)
        ensures
            q.wf(),
            q@ == Seq::<T>::empty(),
            q.spec_allocated() == 1,
            q.spec_released() == 0,
            q.spec_pending_slots() == Seq::<usize>::empty(),
            q.no_hazards(),
    {
        let mut arena: Vec<Node<T>> = Vec::new();
        arena.push(Node::sentinel());
        let ghost c: Seq<usize> = seq![0usize];
        let q = Queue { arena, head: 0, tail: 0, freed: 0, pending: Vec::new(), chain: Ghost(c) };
        proof {
            assert(q.chain@[0] == 0usize);
            assert(q.chain@.last() == 0usize);
            assert forall|j: int|
                0 <= j < q.arena@.len() implies ((#[trigger] q.arena@[j]).state == NodeState::Linked
                <==> q.chain@.contains(j as usize)) by {
                assert(q.chain@[0] == 0usize);
            }
            assert(q@ =~= Seq::<T>::empty());
        }
        q
    }

    /// Raise the sentinel's hazard counter on a reader's behalf; only an
    /// increment observed from zero acquires the guard. Returns the guarded
    /// slot's index, or `None` when the counter was already held, in which
    /// case nothing changes.
    pub fn guard_head(&mut self) -> (r: Option<usize>)
        requires
            old(self).wf(),
        ensures
            final(self).wf(),
            final(self)@ == old(self)@,
            final(self).spec_allocated() == old(self).spec_allocated(),
            final(self).spec_released() == old(self).spec_released(),
            final(self).spec_pending_slots() == old(self).spec_pending_slots(),
            final(self).spec_front() == old(self).spec_front(),
            old(self).front_guarded() ==> r is None && *final(self) == *old(self),
            !old(self).front_guarded() ==> r == Some(old(self).spec_front())
                && final(self).front_guarded() && forall|k: int|
                k != old(self).spec_front() ==> final(self).spec_guarded(k) == old(
                    self,
                ).spec_guarded(k),
    {
        let h = self.head;
        if self.arena[h].refct == 0 {
            self.arena[h].refct = 1;
            proof {
                assert(self.arena@ =~= old(self).arena@.update(h as int, self.arena@[h as int]));
                assert(self@ =~= old(self)@);
            }
            Some(h)
        } else {
            None
        }
    }

    /// Lower the hazard counter on slot `i` once the reader is done with it.
    pub fn unguard(&mut self, i: usize)
        requires
            old(self).wf(),
            old(self).spec_guarded(i as int),
        ensures
            final(self).wf(),
            final(self)@ == old(self)@,
            final(self).spec_allocated() == old(self).spec_allocated(),
            final(self).spec_released() == old(self).spec_released(),
            final(self).spec_pending_slots() == old(self).spec_pending_slots(),
            final(self).spec_front() == old(self).spec_front(),
            !final(self).spec_guarded(i as int),
            forall|k: int|
                k != i ==> final(self).spec_guarded(k) == old(self).spec_guarded(k),
    {
        self.arena[i].refct = 0;
        proof {
            assert(self.arena@ =~= old(self).arena@.update(i as int, self.arena@[i as int]));
            assert(self@ =~= old(self)@);
        }
    }

    /// Appends `x` at the back; never fails and touches no hazard counter.
    /// The allocation bound is a machine limit: every slot needs a distinct
    /// index below the null link.
    pub fn enqueue(&mut self, x: T)
        requires
            old(self).wf(),
            old(self).spec_allocated() < usize::MAX,
        ensures
            final(self).wf(),
            final(self)@ == old(self)@.push(x),
            final(self).spec_allocated() == old(self).spec_allocated() + 1,
            final(self).spec_released() == old(self).spec_released(),
            final(self).spec_pending_slots() == old(self).spec_pending_slots(),
            forall|k: int| final(self).spec_guarded(k) == old(self).spec_guarded(k),
    {
        let ghost a0 = self.arena@;
        let ghost c0 = self.chain@;
        let q = self.arena.len();
        self.arena.push(Node::new(x));
        let ghost a1 = self.arena@;

        let mut p = self.tail;
        let ghost mut pos: int = c0.len() - 1;

        // Walk to the true last cell before linking; see `lock_free_queue`.
        while self.arena[p].next != NIL
            invariant
                0 <= pos < c0.len(),
                p == c0[pos],
                chain_ok(a0, c0),
                self.arena@ == a1,
                a1 == a0.push(Node { value: Some(x), next: NIL, state: NodeState::Linked, refct: 0 }),
            decreases c0.len() - pos,
        {
            proof {
                assert(c0[pos] < a0.len());
                assert(a1[p as int] == a0[p as int]);
                if pos == c0.len() - 1 {
                    assert(a0[c0.last() as int].next == NIL);
                    assert(false);
                }
                assert(a0[c0[pos] as int].next == c0[pos + 1]);
            }
            p = self.arena[p].next;
            proof {
                pos = pos + 1;
            }
        }
        proof {
            assert(a1[p as int] == a0[p as int]);
            if pos < c0.len() - 1 {
                assert(a0[c0[pos] as int].next == c0[pos + 1]);
                assert(c0[pos + 1] < a0.len());
                assert(false);
            }
            assert(p == c0.last());
        }

        self.arena[p].next = q;
        self.tail = q;
        self.chain = Ghost(c0.push(q));

        proof {
            let a2 = self.arena@;
            let c1 = self.chain@;
            assert forall|k: int| 0 <= k < a1.len() && k != p implies a2[k] == a1[k] by {}
            assert(a2[p as int].next == q);
            assert(a2[p as int].value == a1[p as int].value);
            assert(a2[p as int].state == a1[p as int].state);
            assert(a2[p as int].refct == a1[p as int].refct);
            assert forall|i: int| 0 <= i < c0.len() implies c0[i] < q by {}

            assert(chain_ok(a2, c1)) by {
                assert forall|i: int| 0 <= i < c1.len() - 1 implies a2[#[trigger] c1[i] as int].next
                    == c1[i + 1] by {
                    if i < c0.len() - 1 {
                        assert(c1[i] == c0[i]);
                        assert(c0[i] != p) by {
                            assert(c0[c0.len() - 1] == p);
                        }
                        assert(a2[c0[i] as int] == a0[c0[i] as int]);
                    } else {
                        assert(c1[i] == p);
                    }
                }
                assert(c1.last() == q);
                assert(a2[q as int] == a1[q as int]);
                assert(c1[0] == c0[0]);
                if c0[0] == p {
                    assert(a2[c1[0] as int].value == a0[c0[0] as int].value);
                } else {
                    assert(a2[c1[0] as int] == a0[c0[0] as int]);
                }
                assert forall|i: int| 1 <= i < c1.len() implies a2[#[trigger] c1[i] as int].value
                    is Some by {
                    if i < c0.len() {
                        assert(c1[i] == c0[i]);
                        assert(a2[c0[i] as int].value == a0[c0[i] as int].value);
                    } else {
                        assert(c1[i] == q);
                    }
                }
            }
            assert forall|j: int|
                0 <= j < a2.len() implies ((#[trigger] a2[j]).state == NodeState::Linked
                <==> c1.contains(j as usize)) by {
                if j < a0.len() {
                    assert(a2[j].state == a0[j].state);
                    if c0.contains(j as usize) {
                        let w = choose|w: int| 0 <= w < c0.len() && c0[w] == j as usize;
                        assert(c1[w] == j as usize);
                        assert(c1.contains(j as usize));
                    }
                    if c1.contains(j as usize) {
                        let w = choose|w: int| 0 <= w < c1.len() && c1[w] == j as usize;
                        assert(w < c0.len());
                        assert(c0.contains(j as usize));
                    }
                } else {
                    assert(j == q);
                    assert(a2[j].state == NodeState::Linked);
                    assert(c1[c1.len() - 1] == q);
                    assert(c1.contains(q));
                }
            }
            assert forall|j: int|
                0 <= j < a2.len() implies ((#[trigger] a2[j]).state == NodeState::Quarantined
                <==> self.pending@.contains(j as usize)) by {
                if j < a0.len() {
                    assert(a2[j].state == a0[j].state);
                } else {
                    assert(j == q);
                    assert(a2[j].state == NodeState::Linked);
                    if self.pending@.contains(q) {
                        let w = choose|w: int| 0 <= w < self.pending@.len() && self.pending@[w] == q;
                        assert(self.pending@[w] < a0.len());
                    }
                }
            }
            assert forall|j: int|
                0 <= j < a2.len() implies ((#[trigger] a2[j]).state == NodeState::Linked
                || a2[j].state == NodeState::Quarantined || a2[j].state == NodeState::Freed) by {
                if j < a0.len() {
                    assert(a2[j].state == a0[j].state);
                }
            }
            assert forall|j: int|
                0 <= j < a2.len() && (#[trigger] a2[j]).state != NodeState::Linked implies a2[j].value
                is None by {
                if j < a0.len() {
                    assert(a2[j].state == a0[j].state);
                    assert(a2[j].value == a0[j].value);
                }
            }
            assert forall|j: int|
                0 <= j < a2.len() && (#[trigger] a2[j]).state == NodeState::Freed implies a2[j].refct
                == 0 by {
                if j < a0.len() {
                    assert(a2[j].state == a0[j].state);
                    assert(a2[j].refct == a0[j].refct);
                }
            }
            assert forall|j: int| 0 <= j < a2.len() implies (#[trigger] a2[j]).refct <= 1 by {
                if j < a0.len() {
                    assert(a2[j].refct == a0[j].refct);
                }
            }
            assert forall|k: int| final(self).spec_guarded(k) == old(self).spec_guarded(k) by {
                if 0 <= k < a0.len() {
                    assert(a2[k].refct == a0[k].refct);
                } else if k == a0.len() {
                    assert(a2[k].refct == 0);
                }
            }
            assert(self@ =~= old(self)@.push(x)) by {
                assert forall|i: int| 0 <= i < c1.len() - 1 implies self@[i] == old(self)@.push(x)[i]
                    by {
                    if i < c0.len() - 1 {
                        assert(c1[i + 1] == c0[i + 1]);
                        assert(a2[c0[i + 1] as int].value == a0[c0[i + 1] as int].value);
                    } else {
                        assert(c1[i + 1] == q);
                        assert(a2[q as int].value == Some(x));
                    }
                }
            }
        }
    }

    /// Removes and returns the oldest value, or `None` on an empty queue, in
    /// which case nothing changes. The unlinked sentinel is retired through
    /// the hazard gate: released at once when its counter is clear, parked in
    /// quarantine while a reader still holds it — retirement never completes
    /// under an outstanding increment.
    pub fn dequeue(&mut self) -> (r: Option<T>)
        requires
            old(self).wf(),
        ensures
            final(self).wf(),
            old(self)@.len() == 0 ==> r is None && *final(self) == *old(self),
            old(self)@.len() > 0 ==> r == Some(old(self)@[0]) && final(self)@ == old(self)@
                .drop_first(),
            final(self).spec_allocated() == old(self).spec_allocated(),
            forall|k: int| final(self).spec_guarded(k) == old(self).spec_guarded(k),
            old(self)@.len() > 0 && !old(self).front_guarded() ==> final(self).spec_released()
                == old(self).spec_released() + 1 && final(self).spec_pending_slots() == old(
                self,
            ).spec_pending_slots(),
            old(self)@.len() > 0 && old(self).front_guarded() ==> final(self).spec_released()
                == old(self).spec_released() && final(self).spec_pending_slots() == old(
                self,
            ).spec_pending_slots().push(old(self).spec_front()),
            old(self)@.len() == 0 ==> final(self).spec_released() == old(self).spec_released()
                && final(self).spec_pending_slots() == old(self).spec_pending_slots(),
    {
        let ghost a0 = self.arena@;
        let ghost c0 = self.chain@;
        let p = self.head;
        let p_next = self.arena[p].next;
        if p_next == NIL {
            proof {
                if c0.len() > 1 {
                    assert(a0[c0[0] as int].next == c0[1]);
                    assert(c0[1] < a0.len());
                    assert(false);
                }
                assert(self@ =~= Seq::<T>::empty());
            }
            return None;
        }

        proof {
            if c0.len() == 1 {
                assert(a0[c0.last() as int].next == NIL);
                assert(false);
            }
            assert(a0[c0[0] as int].next == c0[1]);
            assert(p_next == c0[1]);
            assert(c0[1] < a0.len());
        }

        self.head = p_next;
        let r = self.arena[p_next].value.take();
        let ghost a1 = self.arena@;
        // The old sentinel leaves the chain; retire it through the hazard
        // gate.
        self.arena[p].state = NodeState::Unlinked;
        let hazard_held = self.arena[p].refct != 0;
        if hazard_held {
            self.arena[p].state = NodeState::Quarantined;
            self.pending.push(p);
        } else {
            self.arena[p].state = NodeState::Freed;
            self.freed = self.freed + 1;
        }
        self.chain = Ghost(c0.drop_first());

        proof {
            let a2 = self.arena@;
            let c1 = self.chain@;
            let ghost pend1 = self.pending@;
            assert(p != p_next) by {
                assert(c0[0] != c0[1]);
            }
            assert forall|k: int| 0 <= k < a0.len() && k != p && k != p_next implies a2[k] == a0[k]
                by {}
            assert(a2[p as int].value == a0[p as int].value);
            assert(a2[p as int].next == a0[p as int].next);
            assert(a2[p as int].refct == a0[p as int].refct);
            assert(a2[p_next as int].next == a0[p_next as int].next);
            assert(a2[p_next as int].state == a0[p_next as int].state);
            assert(a2[p_next as int].refct == a0[p_next as int].refct);
            assert(a2[p_next as int].value is None);

            assert forall|i: int| 0 <= i < c1.len() implies c1[i] == c0[i + 1] by {}
            assert forall|i: int| 0 <= i < c1.len() implies c1[i] != p by {
                assert(c0[0] == p);
            }
            // p was linked, so it was not parked before
            assert(a0[p as int].state == NodeState::Linked) by {
                assert(c0[0] == p);
                assert(c0.contains(p));
            }
            assert(!old(self).pending@.contains(p));

            assert(chain_ok(a2, c1)) by {
                assert forall|i: int| 0 <= i < c1.len() - 1 implies a2[#[trigger] c1[i] as int].next
                    == c1[i + 1] by {
                    if c1[i] == p_next {
                        assert(a2[c1[i] as int].next == a0[c1[i] as int].next);
                    } else {
                        assert(a2[c1[i] as int] == a0[c1[i] as int]);
                    }
                    assert(a0[c0[i + 1] as int].next == c0[i + 2]);
                }
                assert(c1.last() == c0.last());
                if c1.last() == p_next {
                    assert(a2[c1.last() as int].next == a0[c1.last() as int].next);
                } else {
                    assert(a2[c1.last() as int] == a0[c1.last() as int]);
                }
                assert(c1[0] == p_next);
                assert(a2[c1[0] as int].value is None);
                assert forall|i: int| 1 <= i < c1.len() implies a2[#[trigger] c1[i] as int].value
                    is Some by {
                    assert(c1[i] == c0[i + 1]);
                    assert(c0[i + 1] != c0[1]) by {
                        assert(0 <= 1 < i + 1 < c0.len());
                    }
                    assert(a2[c1[i] as int] == a0[c1[i] as int]);
                }
            }
            assert(c1[0] == self.head);
            assert(c1.last() == self.tail);
            assert forall|j: int|
                0 <= j < a2.len() implies ((#[trigger] a2[j]).state == NodeState::Linked
                <==> c1.contains(j as usize)) by {
                if j == p {
                    assert(a2[j].state != NodeState::Linked);
                    if c1.contains(p) {
                        let w = choose|w: int| 0 <= w < c1.len() && c1[w] == p;
                        assert(c1[w] != p);
                    }
                } else {
                    assert(a2[j].state == a0[j].state);
                    if c1.contains(j as usize) {
                        let w = choose|w: int| 0 <= w < c1.len() && c1[w] == j as usize;
                        assert(c0[w + 1] == j as usize);
                        assert(c0.contains(j as usize));
                    }
                    if c0.contains(j as usize) {
                        let w = choose|w: int| 0 <= w < c0.len() && c0[w] == j as usize;
                        assert(w != 0) by {
                            assert(c0[0] == p);
                        }
                        assert(c1[w - 1] == j as usize);
                        assert(c1.contains(j as usize));
                    }
                }
            }
            assert forall|j: int|
                0 <= j < a2.len() implies ((#[trigger] a2[j]).state == NodeState::Quarantined
                <==> pend1.contains(j as usize)) by {
                if hazard_held {
                    if j == p {
                        assert(a2[j].state == NodeState::Quarantined);
                        assert(pend1[pend1.len() - 1] == p);
                        assert(pend1.contains(p));
                    } else {
                        assert(a2[j].state == a0[j].state);
                        if pend1.contains(j as usize) {
                            let w = choose|w: int| 0 <= w < pend1.len() && pend1[w] == j as usize;
                            assert(w < pend1.len() - 1);
                            assert(old(self).pending@[w] == j as usize);
                            assert(old(self).pending@.contains(j as usize));
                        }
                        if old(self).pending@.contains(j as usize) {
                            let w = choose|w: int|
                                0 <= w < old(self).pending@.len() && old(self).pending@[w]
                                    == j as usize;
                            assert(pend1[w] == j as usize);
                            assert(pend1.contains(j as usize));
                        }
                    }
                } else {
                    assert(pend1 == old(self).pending@);
                    if j == p {
                        assert(a2[j].state == NodeState::Freed);
                    } else {
                        assert(a2[j].state == a0[j].state);
                    }
                }
            }
            assert forall|j: int|
                0 <= j < a2.len() implies ((#[trigger] a2[j]).state == NodeState::Linked
                || a2[j].state == NodeState::Quarantined || a2[j].state == NodeState::Freed) by {
                if j != p {
                    assert(a2[j].state == a0[j].state);
                }
            }
            assert forall|j: int|
                0 <= j < a2.len() && (#[trigger] a2[j]).state != NodeState::Linked implies a2[j].value
                is None by {
                if j != p && j != p_next {
                    assert(a2[j] == a0[j]);
                }
                if j == p {
                    assert(a2[j].value == a0[j].value);
                    assert(a0[c0[0] as int].value is None);
                }
            }
            assert forall|j: int|
                0 <= j < a2.len() && (#[trigger] a2[j]).state == NodeState::Freed implies a2[j].refct
                == 0 by {
                if j == p {
                    assert(a2[j].refct == a0[j].refct);
                } else {
                    assert(a2[j].refct == a0[j].refct);
                    assert(a2[j].state == a0[j].state);
                }
            }
            assert forall|j: int| 0 <= j < a2.len() implies (#[trigger] a2[j]).refct <= 1 by {
                assert(a2[j].refct == a0[j].refct);
            }
            assert forall|i: int| 0 <= i < pend1.len() implies (#[trigger] pend1[i]) < a2.len() by {}
            assert forall|i: int, j: int| 0 <= i < j < pend1.len() implies pend1[i] != pend1[j] by {
                if hazard_held && j == pend1.len() - 1 {
                    assert(pend1[i] == old(self).pending@[i]);
                    assert(old(self).pending@.contains(pend1[i]));
                    assert(pend1[j] == p);
                }
            }
            assert forall|k: int| final(self).spec_guarded(k) == old(self).spec_guarded(k) by {
                if 0 <= k < a2.len() {
                    assert(a2[k].refct == a0[k].refct);
                }
            }

            assert(self@ =~= old(self)@.drop_first()) by {
                assert forall|i: int| 0 <= i < c1.len() - 1 implies self@[i] == old(self)@
                    .drop_first()[i] by {
                    assert(c1[i + 1] == c0[i + 2]);
                    assert(c0[i + 2] != c0[0] && c0[i + 2] != c0[1]);
                    assert(a2[c1[i + 1] as int] == a0[c1[i + 1] as int]);
                }
            }
            assert(r == Some(old(self)@[0])) by {
                assert(old(self)@[0] == a0[c0[1] as int].value.unwrap());
                assert(a0[c0[1] as int].value is Some);
            }
        }
        r
    }

    /// Releases every parked cell whose hazard counter has returned to zero;
    /// cells whose counter is still held stay parked. Returns how many slots
    /// were released.
    #[verifier::loop_isolation(false)]
    #[verifier::rlimit(60)]
    pub fn reclaim_pending(&mut self) -> (n: usize)
        requires
            old(self).wf(),
        ensures
            final(self).wf(),
            final(self)@ == old(self)@,
            final(self).spec_allocated() == old(self).spec_allocated(),
            final(self).spec_front() == old(self).spec_front(),
            forall|k: int| final(self).spec_guarded(k) == old(self).spec_guarded(k),
            final(self).spec_released() == old(self).spec_released() + n,
            old(self).spec_pending_slots().len() == final(self).spec_pending_slots().len() + n,
            forall|i: int|
                0 <= i < final(self).spec_pending_slots().len() ==> old(
                    self,
                ).spec_pending_slots().contains(
                    #[trigger] final(self).spec_pending_slots()[i],
                ) && old(self).spec_guarded(final(self).spec_pending_slots()[i] as int),
            forall|i: int|
                0 <= i < old(self).spec_pending_slots().len() && !old(self).spec_guarded(
                    #[trigger] old(self).spec_pending_slots()[i] as int,
                ) ==> final(self).spec_freed(old(self).spec_pending_slots()[i] as int),
            forall|i: int|
                0 <= i < old(self).spec_pending_slots().len() && old(self).spec_guarded(
                    #[trigger] old(self).spec_pending_slots()[i] as int,
                ) ==> final(self).spec_pending_slots().contains(old(self).spec_pending_slots()[i]),
    {
        let ghost a0 = self.arena@;
        let ghost c0 = self.chain@;
        let ghost pend0 = self.pending@;
        let start = self.freed;
        let mut still: Vec<usize> = Vec::new();
        let mut k: usize = 0;

        proof {
            assert forall|w: int| 0 <= w < pend0.len() implies a0[#[trigger] pend0[w] as int].state
                == NodeState::Quarantined by {
                assert(pend0.contains(pend0[w]));
            }
            assert(Seq::<usize>::empty() + pend0.skip(0) =~= pend0);
        }

        while k < self.pending.len()
            invariant
                k <= pend0.len(),
                still@.len() <= k,
                self.pending@ == pend0,
                self.chain@ == c0,
                self.head == old(self).head,
                self.tail == old(self).tail,
                self.arena@.len() == a0.len(),
                forall|j: int|
                    0 <= j < a0.len() ==> (#[trigger] self.arena@[j]).value == a0[j].value
                        && self.arena@[j].next == a0[j].next && self.arena@[j].refct == a0[j].refct,
                forall|j: int|
                    0 <= j < a0.len() ==> ((#[trigger] self.arena@[j]).state == a0[j].state
                        || self.arena@[j].state == NodeState::Freed),
                forall|j: int|
                    0 <= j < a0.len() ==> ((#[trigger] self.arena@[j]).state == NodeState::Linked
                        <==> a0[j].state == NodeState::Linked),
                forall|j: int|
                    0 <= j < a0.len() && (#[trigger] self.arena@[j]).state == NodeState::Freed
                        ==> a0[j].state == NodeState::Freed || a0[j].refct == 0,
                forall|j: int|
                    0 <= j < a0.len() ==> ((#[trigger] self.arena@[j]).state
                        == NodeState::Quarantined <==> (still@ + pend0.skip(k as int)).contains(
                        j as usize,
                    )),
                forall|w: int|
                    0 <= w < k ==> (a0[#[trigger] pend0[w] as int].refct == 0
                        ==> self.arena@[pend0[w] as int].state == NodeState::Freed) && (a0[pend0[w] as int].refct
                        != 0 ==> still@.contains(pend0[w])),
                forall|u: int|
                    0 <= u < still@.len() ==> exists|w: int|
                        0 <= w < k && pend0[w] == #[trigger] still@[u],
                forall|u: int|
                    0 <= u < still@.len() ==> a0[(#[trigger] still@[u]) as int].refct != 0,
                forall|u: int, v: int| 0 <= u < v < still@.len() ==> still@[u] != still@[v],
                self.freed == start + k - still@.len(),
            decreases pend0.len() - k,
        {
            let i = self.pending[k];
            let ghost still0 = still@;
            let ghost hybrid = still0 + pend0.skip(k as int);
            proof {
                assert(pend0.skip(k as int)[0] == pend0[k as int]);
                assert(hybrid[still0.len() as int] == i);
                assert(hybrid.contains(i));
                assert(self.arena@[i as int].state == NodeState::Quarantined);
            }
            if self.arena[i].refct == 0 {
                self.arena[i].state = NodeState::Freed;
                self.freed = self.freed + 1;
                proof {
                    let hybrid2 = still0 + pend0.skip(k as int + 1);
                    assert forall|j: int|
                        0 <= j < a0.len() implies ((#[trigger] self.arena@[j]).state
                        == NodeState::Quarantined <==> hybrid2.contains(j as usize)) by {
                        if j == i {
                            assert(self.arena@[j].state == NodeState::Freed);
                            if hybrid2.contains(i) {
                                let w = choose|w: int| 0 <= w < hybrid2.len() && hybrid2[w] == i;
                                if w < still0.len() {
                                    assert(still0[w] == i);
                                    assert(a0[i as int].refct != 0);
                                } else {
                                    assert(hybrid2[w] == pend0[w - still0.len() + k + 1]);
                                    assert(pend0[w - still0.len() + k + 1] == pend0[k as int]);
                                }
                                assert(false);
                            }
                        } else {
                            if hybrid.contains(j as usize) {
                                let w = choose|w: int| 0 <= w < hybrid.len() && hybrid[w] == j as usize;
                                if w < still0.len() {
                                    assert(hybrid2[w] == j as usize);
                                    assert(hybrid2.contains(j as usize));
                                } else {
                                    assert(hybrid[w] == pend0[w - still0.len() + k]);
                                    assert(w != still0.len());
                                    assert(hybrid2[w - 1] == pend0[(w - 1) - still0.len() + k + 1]);
                                    assert(hybrid2.contains(j as usize));
                                }
                            }
                            if hybrid2.contains(j as usize) {
                                let w = choose|w: int| 0 <= w < hybrid2.len() && hybrid2[w] == j as usize;
                                if w < still0.len() {
                                    assert(hybrid[w] == j as usize);
                                    assert(hybrid.contains(j as usize));
                                } else {
                                    assert(hybrid2[w] == pend0[w - still0.len() + k + 1]);
                                    assert(hybrid[w + 1] == pend0[(w + 1) - still0.len() + k]);
                                    assert(hybrid.contains(j as usize));
                                }
                            }
                        }
                    }
                }
            } else {
                still.push(i);
                proof {
                    assert(still@ + pend0.skip(k as int + 1) =~= hybrid);
                    assert forall|u: int, v: int|
                        0 <= u < v < still@.len() implies still@[u] != still@[v] by {
                        if v == still@.len() - 1 {
                            assert(still@[u] == still0[u]);
                            let w = choose|w: int| 0 <= w < k && pend0[w] == still0[u];
                            assert(pend0[w] != pend0[k as int]);
                        }
                    }
                    assert forall|u: int|
                        0 <= u < still@.len() implies exists|w: int|
                        0 <= w < k + 1 && pend0[w] == #[trigger] still@[u] by {
                        if u < still@.len() - 1 {
                            let w = choose|w: int| 0 <= w < k && pend0[w] == still0[u];
                            assert(0 <= w < k + 1 && pend0[w] == still@[u]);
                        } else {
                            assert(pend0[k as int] == still@[u]);
                        }
                    }
                }
            }
            k = k + 1;
        }
        self.pending = still;
        let n = self.freed - start;
        proof {
            assert(self.pending@ + pend0.skip(pend0.len() as int) =~= self.pending@);
            assert forall|j: int|
                0 <= j < self.arena@.len() implies ((#[trigger] self.arena@[j]).state
                == NodeState::Quarantined <==> self.pending@.contains(j as usize)) by {
                assert((still@ + pend0.skip(pend0.len() as int)).contains(j as usize)
                    == self.pending@.contains(j as usize));
            }
            assert(self@ =~= old(self)@) by {
                assert forall|i: int| 0 <= i < c0.len() - 1 implies chain_values(self.arena@, c0)[i]
                    == chain_values(a0, c0)[i] by {
                    assert(self.arena@[c0[i + 1] as int].value == a0[c0[i + 1] as int].value);
                }
            }
            assert forall|i: int|
                0 <= i < pend0.len() && !old(self).spec_guarded(#[trigger] pend0[i] as int)
                implies final(self).spec_freed(pend0[i] as int) by {
                assert(a0[pend0[i] as int].refct != 1 ==> a0[pend0[i] as int].refct == 0);
            }
        }
        n
    }

    /// Dequeues until empty and hands every remaining value back, oldest
    /// first. With no reader holding a hazard, every emptied cell's storage
    /// is released on the way.
    pub fn drain(&mut self) -> (vals: Vec<T>)
        requires
            old(self).wf(),
            old(self).no_hazards(),
        ensures
            final(self).wf(),
            vals@ == old(self)@,
            final(self)@ == Seq::<T>::empty(),
            final(self).spec_allocated() == old(self).spec_allocated(),
            final(self).spec_released() == old(self).spec_released() + old(self)@.len(),
            final(self).spec_pending_slots() == old(self).spec_pending_slots(),
            final(self).no_hazards(),
    {
        let mut vals: Vec<T> = Vec::new();
        loop
            invariant_except_break
                self.wf(),
                self.no_hazards(),
                vals@ + self@ == old(self)@,
                self.spec_allocated() == old(self).spec_allocated(),
                self.spec_released() == old(self).spec_released() + vals@.len(),
                self.spec_pending_slots() == old(self).spec_pending_slots(),
            ensures
                self.wf(),
                self.no_hazards(),
                vals@ == old(self)@,
                self@ == Seq::<T>::empty(),
                self.spec_allocated() == old(self).spec_allocated(),
                self.spec_released() == old(self).spec_released() + vals@.len(),
                self.spec_pending_slots() == old(self).spec_pending_slots(),
            decreases self@.len(),
        {
            let ghost pre = self@;
            let ghost seen = vals@;
            match self.dequeue() {
                Some(x) => {
                    vals.push(x);
                    proof {
                        assert(vals@ + self@ =~= seen + pre);
                    }
                },
                None => {
                    proof {
                        assert(vals@ + self@ =~= vals@);
                    }
                    break;
                },
            }
        }
        vals
    }

    /// Tears the queue down: drains the chain, releases every parked cell,
    /// and reports how many slots were released by this call — one per value
    /// still queued, one per parked cell, plus the sentinel. Together with
    /// the slots already released, that accounts for every slot ever
    /// allocated: no leaks, and the accounting invariant rules out any slot
    /// being released twice. Requires that no reader still holds a hazard:
    /// tearing down is only sound with exclusive access.
    pub fn teardown(self) -> (n: usize)
        requires
            self.wf(),
            self.no_hazards(),
        ensures
            n == self@.len() + self.spec_pending_slots().len() + 1,
            self.spec_released() + n == self.spec_allocated(),
    {
        let mut q = self;
        let vals = q.drain();
        let m = q.reclaim_pending();
        proof {
            // with no hazard held, nothing stays parked
            let pend = q.spec_pending_slots();
            if pend.len() > 0 {
                assert(pend.contains(pend[0]));
            }
            assert(m == self.spec_pending_slots().len());
        }
        // All that remains is the sentinel; it goes away with the arena.
        vals.len() + m + 1
    }
}

impl<T> Default for Queue<T> {
    fn default() -> (q: Self)
        ensures
            q.wf(),
            q@ == Seq::<T>::empty(),
            q.spec_allocated() == 1,
            q.spec_released() == 0,
            q.spec_pending_slots() == Seq::<usize>::empty(),
            q.no_hazards(),
    {
        Queue::new()
    }
}

} // verus!
