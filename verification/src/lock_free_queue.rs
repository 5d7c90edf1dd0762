//! The two-pointer FIFO with immediate reclamation: a dequeued slot's
//! storage is released the moment it leaves the chain.
//!
//! Cells live in an arena and link to each other by index (`node::NIL` is the
//! null link). The queue keeps a head index, which always names a sentinel
//! cell with no payload, and a tail index naming the last cell of the chain.
//! An append walks from the tail to the true last cell before linking, which
//! is what keeps it correct even when the tail hint lags behind the end of
//! the chain; a removal swings the head one cell forward, takes the payload
//! out of the cell the head now names, and retires the old sentinel.
//!
//! Releasing a slot the instant it is unlinked is the naive baseline
//! discipline: it is only sound because this type hands out no other path to
//! its cells, so no reader can be left holding a link into a released slot.
//! The sibling queues keep the same chain algorithm but gate the release on a
//! hazard counter or on an epoch service.

use vstd::prelude::*;

use crate::node::{chain_ok, chain_values, Node, NIL};
use crate::reclaim::NodeState;

verus! {

pub struct Queue<T> {
    arena: Vec<Node<T>>,
    head: usize,
    tail: usize,
    freed: usize,
    chain: Ghost<Seq<usize>>,
}

impl<T> View for Queue<T> {
    type V = Seq<T>;

    closed spec fn view(&self) -> Seq<T> {
        chain_values(self.arena@, self.chain@)
    }
}

impl<T> Queue<T> {
    /// The queue's structural invariant: the chain rooted at `head` is a
    /// well-formed null-terminated list ending at `tail`, exactly the chain's
    /// cells are `Linked`, every other slot is `Freed` with its payload gone,
    /// and the slot count splits into chain cells plus released slots.
    pub closed spec fn wf(&self) -> bool {
        &&& chain_ok(self.arena@, self.chain@)
        &&& self.chain@[0] == self.head
        &&& self.chain@.last() == self.tail
        &&& forall|j: int|
            0 <= j < self.arena@.len() ==> ((#[trigger] self.arena@[j]).state == NodeState::Linked
                <==> self.chain@.contains(j as usize))
        &&& forall|j: int|
            0 <= j < self.arena@.len() ==> ((#[trigger] self.arena@[j]).state == NodeState::Linked
                || self.arena@[j].state == NodeState::Freed)
        &&& forall|j: int|
            0 <= j < self.arena@.len() && (#[trigger] self.arena@[j]).state == NodeState::Freed
                ==> self.arena@[j].value is None
        &&& self.arena@.len() == self.chain@.len() + self.freed
        &&& self.arena@.len() <= usize::MAX
    }

    /// How many slots this queue has ever allocated, the sentinel included.
    pub closed spec fn spec_allocated(&self) -> nat {
        self.arena@.len()
    }

    /// How many slots have had their storage released.
    pub closed spec fn spec_released(&self) -> nat {
        self.freed as nat
    }

    pub fn allocated(&self) -> (n: usize)
        ensures
            n == self.spec_allocated(),
    {
        self.arena.len()
    }

    pub fn released(&self) -> (n: usize)
        ensures
            n == self.spec_released(),
    {
        self.freed
    }

    /// Constructs an empty queue: one sentinel cell, nothing released.
    pub fn new() -> (q: Queue<T>)
        ensures
            q.wf(),
            q@ == Seq::<T>::empty(),
            q.spec_allocated() == 1,
            q.spec_released() == 0,
    {
        let mut arena: Vec<Node<T>> = Vec::new();
        arena.push(Node::sentinel());
        let ghost c: Seq<usize> = seq![0usize];
        let q = Queue { arena, head: 0, tail: 0, freed: 0, chain: Ghost(c) };
        proof {
            let c = q.chain@;
            assert(c[0] == 0usize);
            assert(c.last() == 0usize);
            assert forall|j: int|
                0 <= j < q.arena@.len() implies ((#[trigger] q.arena@[j]).state == NodeState::Linked
                <==> c.contains(j as usize)) by {
                assert(c[0] == 0usize);
            }
            assert(q@ =~= Seq::<T>::empty());
        }
        q
    }

    /// Appends `x` at the back; never fails. The allocation bound is a
    /// machine limit: every slot needs a distinct index below the null link.
    pub fn enqueue(&mut self, x: T)
        requires
            old(self).wf(),
            old(self).spec_allocated() < usize::MAX,
        ensures
            final(self).wf(),
            final(self)@ == old(self)@.push(x),
            final(self).spec_allocated() == old(self).spec_allocated() + 1,
            final(self).spec_released() == old(self).spec_released(),
    {
        let ghost a0 = self.arena@;
        let ghost c0 = self.chain@;
        let q = self.arena.len();
        self.arena.push(Node::new(x));
        let ghost a1 = self.arena@;

        let mut p = self.tail;
        let ghost mut pos: int = c0.len() - 1;

        // Walk to the true last cell before linking. Here the stored tail is
        // already it, but the walk is what makes the append tolerate a tail
        // hint that lags the end of the chain.
        while self.arena[p].next != NIL
            invariant
                0 <= pos < c0.len(),
                p == c0[pos],
                chain_ok(a0, c0),
                self.arena@ == a1,
                a1 == a0.push(Node { value: Some(x), next: NIL, state: NodeState::Linked, refct: 0 }),
            decreases c0.len() - pos,
        {
            proof {
                assert(c0[pos] < a0.len());
                assert(a1[p as int] == a0[p as int]);
                if pos == c0.len() - 1 {
                    assert(a0[c0.last() as int].next == NIL);
                    assert(false);
                }
                assert(a0[c0[pos] as int].next == c0[pos + 1]);
            }
            p = self.arena[p].next;
            proof {
                pos = pos + 1;
            }
        }
        proof {
            assert(a1[p as int] == a0[p as int]);
            if pos < c0.len() - 1 {
                assert(a0[c0[pos] as int].next == c0[pos + 1]);
                assert(c0[pos + 1] < a0.len());
                assert(false);
            }
            assert(p == c0.last());
        }

        // Link the new cell behind the last one, then swing the tail hint.
        self.arena[p].next = q;
        self.tail = q;
        self.chain = Ghost(c0.push(q));

        proof {
            let a2 = self.arena@;
            let c1 = self.chain@;
            assert forall|k: int| 0 <= k < a1.len() && k != p implies a2[k] == a1[k] by {}
            assert(a2[p as int].next == q);
            assert(a2[p as int].value == a1[p as int].value);
            assert(a2[p as int].state == a1[p as int].state);
            assert(a2[p as int].refct == a1[p as int].refct);

            // every index of the old chain is below q, so q is fresh
            assert forall|i: int| 0 <= i < c0.len() implies c0[i] < q by {}

            assert(chain_ok(a2, c1)) by {
                assert forall|i: int| 0 <= i < c1.len() implies (#[trigger] c1[i]) < a2.len() by {}
                assert forall|i: int, j: int| 0 <= i < j < c1.len() implies c1[i] != c1[j] by {}
                assert forall|i: int| 0 <= i < c1.len() - 1 implies a2[#[trigger] c1[i] as int].next
                    == c1[i + 1] by {
                    if i < c0.len() - 1 {
                        assert(c1[i] == c0[i]);
                        assert(c0[i] != p) by {
                            assert(c0[c0.len() - 1] == p);
                        }
                        assert(a2[c0[i] as int] == a0[c0[i] as int]);
                    } else {
                        assert(c1[i] == p);
                    }
                }
                assert(c1.last() == q);
                assert(a2[q as int] == a1[q as int]);
                assert(a2[q as int].next == NIL);
                assert(c1[0] == c0[0]);
                if c0[0] == p {
                    assert(a2[c1[0] as int].value == a0[c0[0] as int].value);
                } else {
                    assert(a2[c1[0] as int] == a0[c0[0] as int]);
                }
                assert forall|i: int| 1 <= i < c1.len() implies a2[#[trigger] c1[i] as int].value
                    is Some by {
                    if i < c0.len() {
                        assert(c1[i] == c0[i]);
                        assert(a2[c0[i] as int].value == a0[c0[i] as int].value);
                    } else {
                        assert(c1[i] == q);
                    }
                }
            }
            assert(c1[0] == self.head);
            assert(c1.last() == self.tail);
            assert forall|j: int|
                0 <= j < a2.len() implies ((#[trigger] a2[j]).state == NodeState::Linked
                <==> c1.contains(j as usize)) by {
                if j < a0.len() {
                    assert(a2[j].state == a0[j].state);
                    if c0.contains(j as usize) {
                        let w = choose|w: int| 0 <= w < c0.len() && c0[w] == j as usize;
                        assert(c1[w] == j as usize);
                        assert(c1.contains(j as usize));
                    }
                    if c1.contains(j as usize) {
                        let w = choose|w: int| 0 <= w < c1.len() && c1[w] == j as usize;
                        assert(w < c0.len());
                        assert(c0.contains(j as usize));
                    }
                } else {
                    assert(j == q);
                    assert(a2[j].state == NodeState::Linked);
                    assert(c1[c1.len() - 1] == q);
                    assert(c1.contains(q));
                }
            }
            assert forall|j: int|
                0 <= j < a2.len() implies ((#[trigger] a2[j]).state == NodeState::Linked
                || a2[j].state == NodeState::Freed) by {
                if j < a0.len() {
                    assert(a2[j].state == a0[j].state);
                }
            }
            assert forall|j: int|
                0 <= j < a2.len() && (#[trigger] a2[j]).state == NodeState::Freed implies a2[j].value
                is None by {
                if j < a0.len() {
                    assert(a2[j].state == a0[j].state);
                    assert(a2[j].value == a0[j].value);
                }
            }
            assert(self@ =~= old(self)@.push(x)) by {
                assert forall|i: int| 0 <= i < c1.len() - 1 implies self@[i] == old(self)@.push(x)[i]
                    by {
                    if i < c0.len() - 1 {
                        assert(c1[i + 1] == c0[i + 1]);
                        assert(a2[c0[i + 1] as int].value == a0[c0[i + 1] as int].value);
                    } else {
                        assert(c1[i + 1] == q);
                        assert(a2[q as int].value == Some(x));
                    }
                }
            }
        }
    }

    /// Removes and returns the oldest value, or `None` on an empty queue, in
    /// which case nothing changes. On success the old sentinel leaves the
    /// chain and its storage is released on the spot.
    pub fn dequeue(&mut self) -> (r: Option<T>)
        requires
            old(self).wf(),
        ensures
            final(self).wf(),
            old(self)@.len() == 0 ==> r is None && *final(self) == *old(self),
            old(self)@.len() > 0 ==> r == Some(old(self)@[0]) && final(self)@ == old(self)@
                .drop_first(),
            final(self).spec_allocated() == old(self).spec_allocated(),
            old(self)@.len() == 0 ==> final(self).spec_released() == old(self).spec_released(),
            old(self)@.len() > 0 ==> final(self).spec_released() == old(self).spec_released() + 1,
    {
        let ghost a0 = self.arena@;
        let ghost c0 = self.chain@;
        let p = self.head;
        let p_next = self.arena[p].next;
        if p_next == NIL {
            // nothing behind the sentinel: the queue is empty
            proof {
                if c0.len() > 1 {
                    assert(a0[c0[0] as int].next == c0[1]);
                    assert(c0[1] < a0.len());
                    assert(false);
                }
                assert(self@ =~= Seq::<T>::empty());
            }
            return None;
        }

        proof {
            if c0.len() == 1 {
                assert(a0[c0.last() as int].next == NIL);
                assert(false);
            }
            assert(a0[c0[0] as int].next == c0[1]);
            assert(p_next == c0[1]);
            assert(c0[1] < a0.len());
        }

        // Swing the head one cell forward; the cell it now names becomes the
        // new sentinel and gives up its payload.
        self.head = p_next;
        let r = self.arena[p_next].value.take();
        let ghost a1 = self.arena@;
        // The old sentinel leaves the chain and is handed over for disposal;
        // this discipline frees it at once.
        self.arena[p].state = NodeState::Unlinked;
        self.arena[p].state = NodeState::Freed;
        self.freed = self.freed + 1;
        self.chain = Ghost(c0.drop_first());

        proof {
            let a2 = self.arena@;
            let c1 = self.chain@;
            assert(a1 == a0.update(p_next as int, Node {
                value: None,
                next: a0[p_next as int].next,
                state: a0[p_next as int].state,
                refct: a0[p_next as int].refct,
            }));
            assert(p != p_next) by {
                assert(c0[0] != c0[1]);
            }
            assert forall|k: int| 0 <= k < a0.len() && k != p && k != p_next implies a2[k] == a0[k]
                by {}
            assert(a2[p as int].value == a0[p as int].value);
            assert(a2[p as int].next == a0[p as int].next);
            assert(a2[p_next as int].next == a0[p_next as int].next);
            assert(a2[p_next as int].state == a0[p_next as int].state);
            assert(a2[p_next as int].value is None);

            assert forall|i: int| 0 <= i < c1.len() implies c1[i] == c0[i + 1] by {}
            assert forall|i: int| 0 <= i < c1.len() implies c1[i] != p by {
                assert(c0[0] == p);
            }

            assert(chain_ok(a2, c1)) by {
                assert forall|i: int| 0 <= i < c1.len() - 1 implies a2[#[trigger] c1[i] as int].next
                    == c1[i + 1] by {
                    if c1[i] == p_next {
                        assert(a2[c1[i] as int].next == a0[c1[i] as int].next);
                    } else {
                        assert(a2[c1[i] as int] == a0[c1[i] as int]);
                    }
                    assert(a0[c0[i + 1] as int].next == c0[i + 2]);
                }
                assert(c1.last() == c0.last());
                if c1.last() == p_next {
                    assert(a2[c1.last() as int].next == a0[c1.last() as int].next);
                } else {
                    assert(a2[c1.last() as int] == a0[c1.last() as int]);
                }
                assert(c1[0] == p_next);
                assert(a2[c1[0] as int].value is None);
                assert forall|i: int| 1 <= i < c1.len() implies a2[#[trigger] c1[i] as int].value
                    is Some by {
                    assert(c1[i] == c0[i + 1]);
                    assert(c0[i + 1] != c0[1]) by {
                        assert(0 <= 1 < i + 1 < c0.len());
                    }
                    assert(a2[c1[i] as int] == a0[c1[i] as int]);
                }
            }
            assert(c1[0] == self.head);
            assert(c1.last() == self.tail);
            assert forall|j: int|
                0 <= j < a2.len() implies ((#[trigger] a2[j]).state == NodeState::Linked
                <==> c1.contains(j as usize)) by {
                if j == p {
                    assert(a2[j].state == NodeState::Freed);
                    if c1.contains(p) {
                        let w = choose|w: int| 0 <= w < c1.len() && c1[w] == p;
                        assert(c1[w] != p);
                    }
                } else {
                    assert(a2[j].state == a0[j].state);
                    if c1.contains(j as usize) {
                        let w = choose|w: int| 0 <= w < c1.len() && c1[w] == j as usize;
                        assert(c0[w + 1] == j as usize);
                        assert(c0.contains(j as usize));
                    }
                    if c0.contains(j as usize) {
                        let w = choose|w: int| 0 <= w < c0.len() && c0[w] == j as usize;
                        assert(w != 0) by {
                            assert(c0[0] == p);
                        }
                        assert(c1[w - 1] == j as usize);
                        assert(c1.contains(j as usize));
                    }
                }
            }
            assert forall|j: int|
                0 <= j < a2.len() implies ((#[trigger] a2[j]).state == NodeState::Linked
                || a2[j].state == NodeState::Freed) by {
                if j != p {
                    assert(a2[j].state == a0[j].state);
                }
            }
            assert forall|j: int|
                0 <= j < a2.len() && (#[trigger] a2[j]).state == NodeState::Freed implies a2[j].value
                is None by {
                if j != p && j != p_next {
                    assert(a2[j] == a0[j]);
                }
                if j == p {
                    assert(a2[j].value == a0[j].value);
                    assert(a0[c0[0] as int].value is None);
                }
            }

            assert(self@ =~= old(self)@.drop_first()) by {
                assert forall|i: int| 0 <= i < c1.len() - 1 implies self@[i] == old(self)@
                    .drop_first()[i] by {
                    assert(c1[i + 1] == c0[i + 2]);
                    assert(c0[i + 2] != c0[0] && c0[i + 2] != c0[1]);
                    assert(a2[c1[i + 1] as int] == a0[c1[i + 1] as int]);
                }
            }
            assert(r == Some(old(self)@[0])) by {
                assert(old(self)@[0] == a0[c0[1] as int].value.unwrap());
                assert(a0[c0[1] as int].value is Some);
            }
        }
        r
    }

    /// Dequeues until empty and hands every remaining value back, oldest
    /// first; each emptied cell's storage is released on the way.
    pub fn drain(&mut self) -> (vals: Vec<T>)
        requires
            old(self).wf(),
        ensures
            final(self).wf(),
            vals@ == old(self)@,
            final(self)@ == Seq::<T>::empty(),
            final(self).spec_allocated() == old(self).spec_allocated(),
            final(self).spec_released() == old(self).spec_released() + old(self)@.len(),
    {
        let mut vals: Vec<T> = Vec::new();
        loop
            invariant_except_break
                self.wf(),
                vals@ + self@ == old(self)@,
                self.spec_allocated() == old(self).spec_allocated(),
                self.spec_released() == old(self).spec_released() + vals@.len(),
            ensures
                self.wf(),
                vals@ == old(self)@,
                self@ == Seq::<T>::empty(),
                self.spec_allocated() == old(self).spec_allocated(),
                self.spec_released() == old(self).spec_released() + vals@.len(),
            decreases self@.len(),
        {
            let ghost pre = self@;
            let ghost seen = vals@;
            match self.dequeue() {
                Some(x) => {
                    vals.push(x);
                    proof {
                        assert(vals@ + self@ =~= seen + pre);
                    }
                },
                None => {
                    proof {
                        assert(vals@ + self@ =~= vals@);
                    }
                    break;
                },
            }
        }
        vals
    }

    /// Tears the queue down: drains and releases every remaining cell, the
    /// sentinel last, and reports how many slots were released by this call.
    /// Together with the slots already released, that accounts for every slot
    /// ever allocated: no leaks, and the accounting invariant rules out any
    /// slot being released twice.
    pub fn teardown(self) -> (n: usize)
        requires
            self.wf(),
        ensures
            n == self@.len() + 1,
            self.spec_released() + n == self.spec_allocated(),
    {
        let mut q = self;
        let vals = q.drain();
        // All that remains is the sentinel; it goes away with the arena.
        vals.len() + 1
    }
}

impl<T> Default for Queue<T> {
    fn default() -> (q: Self)
        ensures
            q.wf(),
            q@ == Seq::<T>::empty(),
            q.spec_allocated() == 1,
            q.spec_released() == 0,
    {
        Queue::new()
    }
}

} // verus!
