//! The two-pointer FIFO with epoch-deferred reclamation: a dequeued slot's
//! storage is handed to an `epoch::EpochService`, which releases it only
//! once every guard pinned at or before the retirement has been dropped.
//!
//! The chain algorithm is the one from `lock_free_queue`; the difference is
//! the reclamation discipline. Every operation pins the service on entry and
//! unpins on every exit path. A dequeue does not release the unlinked
//! sentinel: it defers its destruction to the service, and
//! `collect_garbage` later releases exactly the retired cells the service
//! proves unreachable — those no still-pinned guard could have observed.

use vstd::prelude::*;

use crate::epoch::{cleared, EpochService, Guard};
use crate::node::{chain_ok, chain_values, Node, NIL};
use crate::reclaim::NodeState;

verus! {

pub struct Queue<T> {
    arena: Vec<Node<T>>,
    head: usize,
    tail: usize,
    freed: usize,
    service: EpochService,
    chain: Ghost<Seq<usize>>,
}

impl<T> View for Queue<T> {
    type V = Seq<T>;

    closed spec fn view(&self) -> Seq<T> {
        chain_values(self.arena@, self.chain@)
    }
}

impl<T> Queue<T> {
    /// Structural invariant. Beyond the chain shape shared with the
    /// immediate-reclamation queue: the service is itself well formed,
    /// exactly the cells whose destruction is deferred are `Quarantined`,
    /// and the slot count splits into chain cells, deferred cells, and
    /// released slots.
    pub closed spec fn wf(&self) -> bool {
        &&& chain_ok(self.arena@, self.chain@)
        &&& self.chain@[0] == self.head
        &&& self.chain@.last() == self.tail
        &&& self.service.wf()
        &&& forall|j: int|
            0 <= j < self.arena@.len() ==> ((#[trigger] self.arena@[j]).state == NodeState::Linked
                <==> self.chain@.contains(j as usize))
        &&& forall|j: int|
            0 <= j < self.arena@.len() ==> ((#[trigger] self.arena@[j]).state
                == NodeState::Quarantined <==> self.service.spec_deferred_slots().contains(
                j as usize,
            ))
        &&& forall|j: int|
            0 <= j < self.arena@.len() ==> ((#[trigger] self.arena@[j]).state == NodeState::Linked
                || self.arena@[j].state == NodeState::Quarantined || self.arena@[j].state
                == NodeState::Freed)
        &&& forall|j: int|
            0 <= j < self.arena@.len() && (#[trigger] self.arena@[j]).state != NodeState::Linked
                ==> self.arena@[j].value is None
        &&& forall|i: int|
            0 <= i < self.service.spec_deferred_slots().len() ==> (#[trigger] self.service.spec_deferred_slots()[i])
                < self.arena@.len()
        &&& forall|i: int, j: int|
            0 <= i < j < self.service.spec_deferred_slots().len()
                ==> self.service.spec_deferred_slots()[i] != self.service.spec_deferred_slots()[j]
        &&& self.arena@.len() == self.chain@.len() + self.service.spec_deferred_slots().len()
            + self.freed
        &&& self.arena@.len() <= usize::MAX
    }

    /// How many slots this queue has ever allocated, the sentinel included.
    pub closed spec fn spec_allocated(&self) -> nat {
        self.arena@.len()
    }

    /// How many slots have had their storage released.
    pub closed spec fn spec_released(&self) -> nat {
        self.freed as nat
    }

    /// The slots whose destruction is deferred, in retirement order.
    pub closed spec fn spec_quarantined(&self) -> Seq<usize> {
        self.service.spec_deferred_slots()
    }

    /// The retirement stamp of each deferred slot.
    pub closed spec fn spec_retire_stamps(&self) -> Seq<u64> {
        self.service.spec_deferred_stamps()
    }

    /// Stamps of the guards currently pinned on this queue's service.
    pub closed spec fn spec_active(&self) -> Seq<u64> {
        self.service.spec_active()
    }

    /// The service clock.
    pub closed spec fn spec_clock(&self) -> u64 {
        self.service.spec_clock()
    }

    /// The slot index of the current sentinel.
    pub closed spec fn spec_front(&self) -> usize {
        self.head
    }

    /// Whether slot `i` has been released.
    pub closed spec fn spec_freed(&self, i: int) -> bool {
        0 <= i < self.arena@.len() && self.arena@[i].state == NodeState::Freed
    }

    pub fn allocated(&self) -> (n: usize)
        ensures
            n == self.spec_allocated(),
    {
        self.arena.len()
    }

    pub fn released(&self) -> (n: usize)
        ensures
            n == self.spec_released(),
    {
        self.freed
    }

    pub fn quarantined_count(&self) -> (n: usize)
        requires
            self.wf(),
        ensures
            n == self.spec_quarantined().len(),
    {
        self.service.deferred_count()
    }

    pub fn active_count(&self) -> (n: usize)
        ensures
            n == self.spec_active().len(),
    {
        self.service.active_count()
    }

    pub fn clock(&self) -> (c: u64)
        ensures
            c == self.spec_clock(),
    {
        self.service.clock_value()
    }

    /// Constructs an empty queue over a fresh service.
    pub fn new() -> (q: Queue<T>)
        ensures
            q.wf(),
            q@ == Seq::<T>::empty(),
            q.spec_allocated() == 1,
            q.spec_released() == 0,
            q.spec_quarantined() == Seq::<usize>::empty(),
            q.spec_active() == Seq::<u64>::empty(),
            q.spec_clock() == 0,
    {
        let mut arena: Vec<Node<T>> = Vec::new();
        arena.push(Node::sentinel());
        let ghost c: Seq<usize> = seq![0usize];
        let q = Queue {
            arena,
            head: 0,
            tail: 0,
            freed: 0,
            service: EpochService::new(),
            chain: Ghost(c),
        };
        proof {
            assert(q.chain@[0] == 0usize);
            assert(q.chain@.last() == 0usize);
            assert forall|j: int|
                0 <= j < q.arena@.len() implies ((#[trigger] q.arena@[j]).state == NodeState::Linked
                <==> q.chain@.contains(j as usize)) by {
                assert(q.chain@[0] == 0usize);
            }
            assert(q@ =~= Seq::<T>::empty());
        }
        q
    }

    /// Pin a guard on this queue's service, as a reader would before
    /// following links into the chain.
    pub fn pin_guard(&mut self) -> (g: Guard)
        requires
            old(self).wf(),
        ensures
            final(self).wf(),
            final(self)@ == old(self)@,
            final(self).spec_allocated() == old(self).spec_allocated(),
            final(self).spec_released() == old(self).spec_released(),
            final(self).spec_quarantined() == old(self).spec_quarantined(),
            final(self).spec_retire_stamps() == old(self).spec_retire_stamps(),
            final(self).spec_clock() == old(self).spec_clock(),
            g.spec_stamp() == old(self).spec_clock(),
            final(self).spec_active() == old(self).spec_active().push(g.spec_stamp()),
    {
        let g = self.service.pin();
        proof {
            assert(self@ =~= old(self)@);
        }
        g
    }

    /// Drop a guard pinned on this queue's service.
    pub fn unpin_guard(&mut self, g: Guard)
        requires
            old(self).wf(),
            old(self).spec_active().contains(g.spec_stamp()),
        ensures
            final(self).wf(),
            final(self)@ == old(self)@,
            final(self).spec_allocated() == old(self).spec_allocated(),
            final(self).spec_released() == old(self).spec_released(),
            final(self).spec_quarantined() == old(self).spec_quarantined(),
            final(self).spec_retire_stamps() == old(self).spec_retire_stamps(),
            final(self).spec_clock() == old(self).spec_clock(),
            final(self).spec_active().len() == old(self).spec_active().len() - 1,
            old(self).spec_active().last() == g.spec_stamp() ==> final(self).spec_active() == old(
                self,
            ).spec_active().drop_last(),
    {
        self.service.unpin(g);
        proof {
            assert(self@ =~= old(self)@);
        }
    }

    /// Appends `x` at the back under a pinned guard; never fails. The
    /// allocation bound is a machine limit: every slot needs a distinct
    /// index below the null link.
    pub fn enqueue(&mut self, x: T)
        requires
            old(self).wf(),
            old(self).spec_allocated() < usize::MAX,
        ensures
            final(self).wf(),
            final(self)@ == old(self)@.push(x),
            final(self).spec_allocated() == old(self).spec_allocated() + 1,
            final(self).spec_released() == old(self).spec_released(),
            final(self).spec_quarantined() == old(self).spec_quarantined(),
            final(self).spec_retire_stamps() == old(self).spec_retire_stamps(),
            final(self).spec_active() == old(self).spec_active(),
            final(self).spec_clock() == old(self).spec_clock(),
    {
        let ghost a0 = self.arena@;
        let ghost c0 = self.chain@;
        let ghost act0 = self.service.spec_active();
        let g = self.service.pin();
        let q = self.arena.len();
        self.arena.push(Node::new(x));
        let ghost a1 = self.arena@;

        let mut p = self.tail;
        let ghost mut pos: int = c0.len() - 1;

        // Walk to the true last cell before linking; see `lock_free_queue`.
        while self.arena[p].next != NIL
            invariant
                0 <= pos < c0.len(),
                p == c0[pos],
                chain_ok(a0, c0),
                self.arena@ == a1,
                a1 == a0.push(Node { value: Some(x), next: NIL, state: NodeState::Linked, refct: 0 }),
            decreases c0.len() - pos,
        {
            proof {
                assert(c0[pos] < a0.len());
                assert(a1[p as int] == a0[p as int]);
                if pos == c0.len() - 1 {
                    assert(a0[c0.last() as int].next == NIL);
                    assert(false);
                }
                assert(a0[c0[pos] as int].next == c0[pos + 1]);
            }
            p = self.arena[p].next;
            proof {
                pos = pos + 1;
            }
        }
        proof {
            assert(a1[p as int] == a0[p as int]);
            if pos < c0.len() - 1 {
                assert(a0[c0[pos] as int].next == c0[pos + 1]);
                assert(c0[pos + 1] < a0.len());
                assert(false);
            }
            assert(p == c0.last());
        }

        self.arena[p].next = q;
        self.tail = q;
        self.chain = Ghost(c0.push(q));
        proof {
            assert(self.service.spec_active() == act0.push(g.spec_stamp()));
            assert(self.service.spec_active().last() == g.spec_stamp());
            assert(self.service.spec_active().contains(g.spec_stamp()));
        }
        self.service.unpin(g);
        proof {
            assert(self.service.spec_active() =~= act0);
        }

        proof {
            let a2 = self.arena@;
            let c1 = self.chain@;
            let dq = self.service.spec_deferred_slots();
            assert forall|k: int| 0 <= k < a1.len() && k != p implies a2[k] == a1[k] by {}
            assert(a2[p as int].next == q);
            assert(a2[p as int].value == a1[p as int].value);
            assert(a2[p as int].state == a1[p as int].state);
            assert forall|i: int| 0 <= i < c0.len() implies c0[i] < q by {}

            assert(chain_ok(a2, c1)) by {
                assert forall|i: int| 0 <= i < c1.len() - 1 implies a2[#[trigger] c1[i] as int].next
                    == c1[i + 1] by {
                    if i < c0.len() - 1 {
                        assert(c1[i] == c0[i]);
                        assert(c0[i] != p) by {
                            assert(c0[c0.len() - 1] == p);
                        }
                        assert(a2[c0[i] as int] == a0[c0[i] as int]);
                    } else {
                        assert(c1[i] == p);
                    }
                }
                assert(c1.last() == q);
                assert(a2[q as int] == a1[q as int]);
                assert(c1[0] == c0[0]);
                if c0[0] == p {
                    assert(a2[c1[0] as int].value == a0[c0[0] as int].value);
                } else {
                    assert(a2[c1[0] as int] == a0[c0[0] as int]);
                }
                assert forall|i: int| 1 <= i < c1.len() implies a2[#[trigger] c1[i] as int].value
                    is Some by {
                    if i < c0.len() {
                        assert(c1[i] == c0[i]);
                        assert(a2[c0[i] as int].value == a0[c0[i] as int].value);
                    } else {
                        assert(c1[i] == q);
                    }
                }
            }
            assert forall|j: int|
                0 <= j < a2.len() implies ((#[trigger] a2[j]).state == NodeState::Linked
                <==> c1.contains(j as usize)) by {
                if j < a0.len() {
                    assert(a2[j].state == a0[j].state);
                    if c0.contains(j as usize) {
                        let w = choose|w: int| 0 <= w < c0.len() && c0[w] == j as usize;
                        assert(c1[w] == j as usize);
                        assert(c1.contains(j as usize));
                    }
                    if c1.contains(j as usize) {
                        let w = choose|w: int| 0 <= w < c1.len() && c1[w] == j as usize;
                        assert(w < c0.len());
                        assert(c0.contains(j as usize));
                    }
                } else {
                    assert(j == q);
                    assert(a2[j].state == NodeState::Linked);
                    assert(c1[c1.len() - 1] == q);
                    assert(c1.contains(q));
                }
            }
            assert forall|j: int|
                0 <= j < a2.len() implies ((#[trigger] a2[j]).state == NodeState::Quarantined
                <==> dq.contains(j as usize)) by {
                if j < a0.len() {
                    assert(a2[j].state == a0[j].state);
                } else {
                    assert(j == q);
                    assert(a2[j].state == NodeState::Linked);
                    if dq.contains(q) {
                        let w = choose|w: int| 0 <= w < dq.len() && dq[w] == q;
                        assert(dq[w] < a0.len());
                    }
                }
            }
            assert forall|j: int|
                0 <= j < a2.len() implies ((#[trigger] a2[j]).state == NodeState::Linked
                || a2[j].state == NodeState::Quarantined || a2[j].state == NodeState::Freed) by {
                if j < a0.len() {
                    assert(a2[j].state == a0[j].state);
                }
            }
            assert forall|j: int|
                0 <= j < a2.len() && (#[trigger] a2[j]).state != NodeState::Linked implies a2[j].value
                is None by {
                if j < a0.len() {
                    assert(a2[j].state == a0[j].state);
                    assert(a2[j].value == a0[j].value);
                }
            }
            assert(self@ =~= old(self)@.push(x)) by {
                assert forall|i: int| 0 <= i < c1.len() - 1 implies self@[i] == old(self)@.push(x)[i]
                    by {
                    if i < c0.len() - 1 {
                        assert(c1[i + 1] == c0[i + 1]);
                        assert(a2[c0[i + 1] as int].value == a0[c0[i + 1] as int].value);
                    } else {
                        assert(c1[i + 1] == q);
                        assert(a2[q as int].value == Some(x));
                    }
                }
            }
        }
    }

    /// Removes and returns the oldest value, or `None` on an empty queue.
    /// The unlinked sentinel is not released here: its destruction is
    /// deferred to the service under the operation's guard, and it stays
    /// quarantined until `collect_garbage` proves it unreachable. The clock
    /// bound is a machine limit.
    pub fn dequeue(&mut self) -> (r: Option<T>)
        requires
            old(self).wf(),
            old(self)@.len() > 0 ==> old(self).spec_clock() < u64::MAX,
        ensures
            final(self).wf(),
            final(self).spec_allocated() == old(self).spec_allocated(),
            final(self).spec_released() == old(self).spec_released(),
            final(self).spec_active() == old(self).spec_active(),
            old(self)@.len() == 0 ==> r is None && final(self)@ == old(self)@
                && final(self).spec_quarantined() == old(self).spec_quarantined()
                && final(self).spec_retire_stamps() == old(self).spec_retire_stamps()
                && final(self).spec_clock() == old(self).spec_clock(),
            old(self)@.len() > 0 ==> r == Some(old(self)@[0]) && final(self)@ == old(self)@
                .drop_first() && final(self).spec_quarantined() == old(self).spec_quarantined().push(
                old(self).spec_front(),
            ) && final(self).spec_retire_stamps() == old(self).spec_retire_stamps().push(
                old(self).spec_clock(),
            ) && final(self).spec_clock() == old(self).spec_clock() + 1,
    {
        let ghost a0 = self.arena@;
        let ghost c0 = self.chain@;
        let ghost act0 = self.service.spec_active();
        let g = self.service.pin();
        let p = self.head;
        let p_next = self.arena[p].next;
        if p_next == NIL {
            proof {
                if c0.len() > 1 {
                    assert(a0[c0[0] as int].next == c0[1]);
                    assert(c0[1] < a0.len());
                    assert(false);
                }
                assert(self@ =~= Seq::<T>::empty());
                assert(self.service.spec_active() == act0.push(g.spec_stamp()));
                assert(self.service.spec_active().last() == g.spec_stamp());
                assert(self.service.spec_active().contains(g.spec_stamp()));
            }
            self.service.unpin(g);
            proof {
                assert(self.service.spec_active() =~= act0);
            }
            return None;
        }

        proof {
            if c0.len() == 1 {
                assert(a0[c0.last() as int].next == NIL);
                assert(false);
            }
            assert(a0[c0[0] as int].next == c0[1]);
            assert(p_next == c0[1]);
            assert(c0[1] < a0.len());
        }

        self.head = p_next;
        let r = self.arena[p_next].value.take();
        // The old sentinel leaves the chain; it stays quarantined until the
        // service clears it.
        self.arena[p].state = NodeState::Unlinked;
        self.arena[p].state = NodeState::Quarantined;
        self.service.defer_destroy(&g, p);
        proof {
            assert(self.service.spec_active() == act0.push(g.spec_stamp()));
            assert(self.service.spec_active().last() == g.spec_stamp());
            assert(self.service.spec_active().contains(g.spec_stamp()));
        }
        self.service.unpin(g);
        self.chain = Ghost(c0.drop_first());

        proof {
            assert(self.service.spec_active() =~= act0);
            let a2 = self.arena@;
            let c1 = self.chain@;
            let dq0 = old(self).service.spec_deferred_slots();
            let dq = self.service.spec_deferred_slots();
            assert(dq == dq0.push(p));
            assert(p != p_next) by {
                assert(c0[0] != c0[1]);
            }
            assert forall|k: int| 0 <= k < a0.len() && k != p && k != p_next implies a2[k] == a0[k]
                by {}
            assert(a2[p as int].value == a0[p as int].value);
            assert(a2[p as int].next == a0[p as int].next);
            assert(a2[p_next as int].next == a0[p_next as int].next);
            assert(a2[p_next as int].state == a0[p_next as int].state);
            assert(a2[p_next as int].value is None);

            assert forall|i: int| 0 <= i < c1.len() implies c1[i] == c0[i + 1] by {}
            assert forall|i: int| 0 <= i < c1.len() implies c1[i] != p by {
                assert(c0[0] == p);
            }
            assert(a0[p as int].state == NodeState::Linked) by {
                assert(c0[0] == p);
                assert(c0.contains(p));
            }
            assert(!dq0.contains(p));

            assert(chain_ok(a2, c1)) by {
                assert forall|i: int| 0 <= i < c1.len() - 1 implies a2[#[trigger] c1[i] as int].next
                    == c1[i + 1] by {
                    if c1[i] == p_next {
                        assert(a2[c1[i] as int].next == a0[c1[i] as int].next);
                    } else {
                        assert(a2[c1[i] as int] == a0[c1[i] as int]);
                    }
                    assert(a0[c0[i + 1] as int].next == c0[i + 2]);
                }
                assert(c1.last() == c0.last());
                if c1.last() == p_next {
                    assert(a2[c1.last() as int].next == a0[c1.last() as int].next);
                } else {
                    assert(a2[c1.last() as int] == a0[c1.last() as int]);
                }
                assert(c1[0] == p_next);
                assert(a2[c1[0] as int].value is None);
                assert forall|i: int| 1 <= i < c1.len() implies a2[#[trigger] c1[i] as int].value
                    is Some by {
                    assert(c1[i] == c0[i + 1]);
                    assert(c0[i + 1] != c0[1]) by {
                        assert(0 <= 1 < i + 1 < c0.len());
                    }
                    assert(a2[c1[i] as int] == a0[c1[i] as int]);
                }
            }
            assert(c1[0] == self.head);
            assert(c1.last() == self.tail);
            assert forall|j: int|
                0 <= j < a2.len() implies ((#[trigger] a2[j]).state == NodeState::Linked
                <==> c1.contains(j as usize)) by {
                if j == p {
                    assert(a2[j].state != NodeState::Linked);
                    if c1.contains(p) {
                        let w = choose|w: int| 0 <= w < c1.len() && c1[w] == p;
                        assert(c1[w] != p);
                    }
                } else {
                    assert(a2[j].state == a0[j].state);
                    if c1.contains(j as usize) {
                        let w = choose|w: int| 0 <= w < c1.len() && c1[w] == j as usize;
                        assert(c0[w + 1] == j as usize);
                        assert(c0.contains(j as usize));
                    }
                    if c0.contains(j as usize) {
                        let w = choose|w: int| 0 <= w < c0.len() && c0[w] == j as usize;
                        assert(w != 0) by {
                            assert(c0[0] == p);
                        }
                        assert(c1[w - 1] == j as usize);
                        assert(c1.contains(j as usize));
                    }
                }
            }
            assert forall|j: int|
                0 <= j < a2.len() implies ((#[trigger] a2[j]).state == NodeState::Quarantined
                <==> dq.contains(j as usize)) by {
                if j == p {
                    assert(a2[j].state == NodeState::Quarantined);
                    assert(dq[dq.len() - 1] == p);
                    assert(dq.contains(p));
                } else {
                    assert(a2[j].state == a0[j].state);
                    if dq.contains(j as usize) {
                        let w = choose|w: int| 0 <= w < dq.len() && dq[w] == j as usize;
                        assert(w < dq.len() - 1);
                        assert(dq0[w] == j as usize);
                        assert(dq0.contains(j as usize));
                    }
                    if dq0.contains(j as usize) {
                        let w = choose|w: int| 0 <= w < dq0.len() && dq0[w] == j as usize;
                        assert(dq[w] == j as usize);
                        assert(dq.contains(j as usize));
                    }
                }
            }
            assert forall|j: int|
                0 <= j < a2.len() implies ((#[trigger] a2[j]).state == NodeState::Linked
                || a2[j].state == NodeState::Quarantined || a2[j].state == NodeState::Freed) by {
                if j != p {
                    assert(a2[j].state == a0[j].state);
                }
            }
            assert forall|j: int|
                0 <= j < a2.len() && (#[trigger] a2[j]).state != NodeState::Linked implies a2[j].value
                is None by {
                if j != p && j != p_next {
                    assert(a2[j] == a0[j]);
                }
                if j == p {
                    assert(a2[j].value == a0[j].value);
                    assert(a0[c0[0] as int].value is None);
                }
            }
            assert forall|i: int, j: int|
                0 <= i < j < dq.len() implies dq[i] != dq[j] by {
                if j == dq.len() - 1 {
                    assert(dq[i] == dq0[i]);
                    assert(dq0.contains(dq0[i]));
                }
            }

            assert(self@ =~= old(self)@.drop_first()) by {
                assert forall|i: int| 0 <= i < c1.len() - 1 implies self@[i] == old(self)@
                    .drop_first()[i] by {
                    assert(c1[i + 1] == c0[i + 2]);
                    assert(c0[i + 2] != c0[0] && c0[i + 2] != c0[1]);
                    assert(a2[c1[i + 1] as int] == a0[c1[i + 1] as int]);
                }
            }
            assert(r == Some(old(self)@[0])) by {
                assert(old(self)@[0] == a0[c0[1] as int].value.unwrap());
                assert(a0[c0[1] as int].value is Some);
            }
        }
        r
    }

    /// Ask the service for the retired cells that are provably out of
    /// reach and release their storage. Exactly the cleared prefix of the
    /// quarantine is released: a cell retired at stamp `s` is freed only
    /// when every guard still pinned carries a stamp above `s`, so no cell
    /// is ever released under a guard that could still observe it. With no
    /// guard pinned, the whole quarantine is released.
    #[verifier::loop_isolation(false)]
    #[verifier::rlimit(60)]
    pub fn collect_garbage(&mut self) -> (n: usize)
        requires
            old(self).wf(),
        ensures
            final(self).wf(),
            final(self)@ == old(self)@,
            final(self).spec_allocated() == old(self).spec_allocated(),
            final(self).spec_active() == old(self).spec_active(),
            final(self).spec_clock() == old(self).spec_clock(),
            final(self).spec_released() == old(self).spec_released() + n,
            n <= old(self).spec_quarantined().len(),
            final(self).spec_quarantined() == old(self).spec_quarantined().skip(n as int),
            final(self).spec_retire_stamps() == old(self).spec_retire_stamps().skip(n as int),
            forall|i: int|
                0 <= i < n ==> cleared(
                    #[trigger] old(self).spec_retire_stamps()[i],
                    old(self).spec_active(),
                ),
            n < old(self).spec_quarantined().len() ==> !cleared(
                old(self).spec_retire_stamps()[n as int],
                old(self).spec_active(),
            ),
            forall|i: int|
                0 <= i < n ==> final(self).spec_freed(
                    #[trigger] old(self).spec_quarantined()[i] as int,
                ),
            old(self).spec_active().len() == 0 ==> n == old(self).spec_quarantined().len(),
    {
        let ghost a0 = self.arena@;
        let ghost c0 = self.chain@;
        let ghost slots0 = self.service.spec_deferred_slots();
        let ghost f0 = self.freed;
        let ready = self.service.collect();
        let ghost t = ready@.len() as int;
        let mut k: usize = 0;

        proof {
            assert forall|w: int| 0 <= w < t implies (#[trigger] ready@[w]) == slots0[w] by {}
            assert forall|w: int| 0 <= w < t implies a0[(#[trigger] ready@[w]) as int].state
                == NodeState::Quarantined by {
                assert(slots0.contains(slots0[w]));
            }
            assert(Seq::<usize>::empty() + slots0 =~= slots0);
            assert(ready@.skip(0) + slots0.skip(t) =~= slots0) by {
                assert(ready@.skip(0) =~= ready@);
                assert forall|w: int| 0 <= w < slots0.len() implies (ready@ + slots0.skip(t))[w]
                    == slots0[w] by {}
            }
        }

        while k < ready.len()
            invariant
                k <= t,
                self.service.spec_deferred_slots() == slots0.skip(t),
                self.service.spec_deferred_stamps() == old(self).service.spec_deferred_stamps().skip(t),
                self.service.spec_active() == old(self).service.spec_active(),
                self.service.spec_clock() == old(self).service.spec_clock(),
                self.service.wf(),
                self.head == old(self).head,
                self.tail == old(self).tail,
                self.chain@ == c0,
                self.arena@.len() == a0.len(),
                forall|j: int|
                    0 <= j < a0.len() ==> (#[trigger] self.arena@[j]).value == a0[j].value
                        && self.arena@[j].next == a0[j].next,
                forall|j: int|
                    0 <= j < a0.len() ==> ((#[trigger] self.arena@[j]).state == a0[j].state
                        || self.arena@[j].state == NodeState::Freed),
                forall|j: int|
                    0 <= j < a0.len() ==> ((#[trigger] self.arena@[j]).state == NodeState::Linked
                        <==> a0[j].state == NodeState::Linked),
                forall|j: int|
                    0 <= j < a0.len() ==> ((#[trigger] self.arena@[j]).state
                        == NodeState::Quarantined <==> (ready@.skip(k as int) + slots0.skip(
                        t,
                    )).contains(j as usize)),
                forall|w: int|
                    0 <= w < k ==> (#[trigger] self.arena@[ready@[w] as int]).state
                        == NodeState::Freed,
                self.freed == f0 + k,
            decreases t - k,
        {
            let i = ready[k];
            let ghost hybrid = ready@.skip(k as int) + slots0.skip(t);
            proof {
                assert(ready@.skip(k as int)[0] == ready@[k as int]);
                assert(hybrid[0] == i);
                assert(hybrid.contains(i));
                assert(self.arena@[i as int].state == NodeState::Quarantined);
            }
            self.arena[i].state = NodeState::Freed;
            self.freed = self.freed + 1;
            proof {
                let hybrid2 = ready@.skip(k as int + 1) + slots0.skip(t);
                assert forall|j: int|
                    0 <= j < a0.len() implies ((#[trigger] self.arena@[j]).state
                    == NodeState::Quarantined <==> hybrid2.contains(j as usize)) by {
                    if j == i {
                        assert(self.arena@[j].state == NodeState::Freed);
                        if hybrid2.contains(i) {
                            let w = choose|w: int| 0 <= w < hybrid2.len() && hybrid2[w] == i;
                            if w < ready@.len() - k - 1 {
                                assert(hybrid2[w] == ready@[w + k + 1]);
                                assert(slots0[w + k + 1] == slots0[k as int]);
                            } else {
                                assert(hybrid2[w] == slots0[w - (ready@.len() - k - 1) + t]);
                                assert(slots0[w - (ready@.len() - k - 1) + t] == slots0[k as int]);
                            }
                            assert(false);
                        }
                    } else {
                        if hybrid.contains(j as usize) {
                            let w = choose|w: int| 0 <= w < hybrid.len() && hybrid[w] == j as usize;
                            assert(w != 0);
                            if w < ready@.len() - k {
                                assert(hybrid[w] == ready@[w + k]);
                                assert(hybrid2[w - 1] == ready@[(w - 1) + k + 1]);
                            } else {
                                assert(hybrid[w] == slots0[w - (ready@.len() - k) + t]);
                                assert(hybrid2[w - 1] == slots0[(w - 1) - (ready@.len() - k - 1) + t]);
                            }
                            assert(hybrid2.contains(j as usize));
                        }
                        if hybrid2.contains(j as usize) {
                            let w = choose|w: int| 0 <= w < hybrid2.len() && hybrid2[w] == j as usize;
                            if w < ready@.len() - k - 1 {
                                assert(hybrid2[w] == ready@[w + k + 1]);
                                assert(hybrid[w + 1] == ready@[(w + 1) + k]);
                            } else {
                                assert(hybrid2[w] == slots0[w - (ready@.len() - k - 1) + t]);
                                assert(hybrid[w + 1] == slots0[(w + 1) - (ready@.len() - k) + t]);
                            }
                            assert(hybrid.contains(j as usize));
                        }
                    }
                }
            }
            k = k + 1;
        }

        proof {
            assert(ready@.skip(t) + slots0.skip(t) =~= slots0.skip(t));
            assert(self@ =~= old(self)@) by {
                assert forall|i: int| 0 <= i < c0.len() - 1 implies chain_values(self.arena@, c0)[i]
                    == chain_values(a0, c0)[i] by {
                    assert(self.arena@[c0[i + 1] as int].value == a0[c0[i + 1] as int].value);
                }
            }
        }
        ready.len()
    }

    /// Dequeues until empty and hands every remaining value back, oldest
    /// first. Nothing is released here: every emptied cell joins the
    /// quarantine, to be released by a later `collect_garbage`. The clock
    /// bound is a machine limit (one tick per removal).
    pub fn drain(&mut self) -> (vals: Vec<T>)
        requires
            old(self).wf(),
            old(self).spec_clock() + old(self)@.len() <= u64::MAX,
        ensures
            final(self).wf(),
            vals@ == old(self)@,
            final(self)@ == Seq::<T>::empty(),
            final(self).spec_allocated() == old(self).spec_allocated(),
            final(self).spec_released() == old(self).spec_released(),
            final(self).spec_active() == old(self).spec_active(),
            final(self).spec_quarantined().len() == old(self).spec_quarantined().len() + old(
                self,
            )@.len(),
            final(self).spec_clock() == old(self).spec_clock() + old(self)@.len(),
    {
        let mut vals: Vec<T> = Vec::new();
        loop
            invariant_except_break
                self.wf(),
                vals@ + self@ == old(self)@,
                self.spec_allocated() == old(self).spec_allocated(),
                self.spec_released() == old(self).spec_released(),
                self.spec_active() == old(self).spec_active(),
                self.spec_quarantined().len() == old(self).spec_quarantined().len() + vals@.len(),
                self.spec_clock() == old(self).spec_clock() + vals@.len(),
                self.spec_clock() + self@.len() <= u64::MAX,
            ensures
                self.wf(),
                vals@ == old(self)@,
                self@ == Seq::<T>::empty(),
                self.spec_allocated() == old(self).spec_allocated(),
                self.spec_released() == old(self).spec_released(),
                self.spec_active() == old(self).spec_active(),
                self.spec_quarantined().len() == old(self).spec_quarantined().len() + vals@.len(),
                self.spec_clock() == old(self).spec_clock() + vals@.len(),
            decreases self@.len(),
        {
            let ghost pre = self@;
            let ghost seen = vals@;
            match self.dequeue() {
                Some(x) => {
                    vals.push(x);
                    proof {
                        assert(vals@ + self@ =~= seen + pre);
                    }
                },
                None => {
                    proof {
                        assert(vals@ + self@ =~= vals@);
                    }
                    break;
                },
            }
        }
        vals
    }

    /// Tears the queue down: drains the chain into the quarantine, has the
    /// service release everything — with no guard pinned the whole
    /// quarantine clears — and reports how many slots were released by this
    /// call: one per value still queued, one per cell already quarantined,
    /// plus the sentinel. Together with the slots already released, that
    /// accounts for every slot ever allocated: no leaks, and the accounting
    /// invariant rules out any slot being released twice. Requires that no
    /// guard is still pinned: tearing down is only sound with exclusive
    /// access.
    pub fn teardown(self) -> (n: usize)
        requires
            self.wf(),
            self.spec_active().len() == 0,
            self.spec_clock() + self@.len() <= u64::MAX,
        ensures
            n == self@.len() + self.spec_quarantined().len() + 1,
            self.spec_released() + n == self.spec_allocated(),
    {
        let mut q = self;
        let drained = q.drain();
        let m = q.collect_garbage();
        proof {
            assert(drained@.len() == self@.len());
        }
        // All that remains is the sentinel; it goes away with the arena.
        m + 1
    }
}

impl<T> Default for Queue<T> {
    fn default() -> (q: Self)
        ensures
            q.wf(),
            q@ == Seq::<T>::empty(),
            q.spec_allocated() == 1,
            q.spec_released() == 0,
            q.spec_quarantined() == Seq::<usize>::empty(),
            q.spec_active() == Seq::<u64>::empty(),
            q.spec_clock() == 0,
    {
        Queue::new()
    }
}

} // verus!
