//! The lifecycle every queue slot moves through, shared by all reclamation
//! disciplines.
//!
//! A slot starts `Linked`: it is part of the chain hanging off the queue's
//! head and other operations may follow links into it. The dequeue that takes
//! it out of the chain moves it to `Unlinked`, handing ownership to the
//! active reclamation discipline. The discipline either releases the storage
//! at once (`Freed`) or parks the slot in `Quarantined` while it waits for
//! evidence that no reader can still reach it, releasing it later. `Freed` is
//! terminal: no step leads out of it, so storage is released at most once and
//! a released slot never re-enters the chain.

use vstd::prelude::*;

verus! {

/// Lifecycle state of one queue slot.
#[derive(Clone, Copy, PartialEq, Eq, Structural, Debug)]
pub enum NodeState {
    /// Reachable from the queue's head; its value (if any) is live.
    Linked,
    /// Taken out of the chain by a dequeue; owned by the reclamation
    /// discipline, storage still intact.
    Unlinked,
    /// Unlinked, but a reader may still hold a path to it; the discipline
    /// keeps the storage until that is ruled out.
    Quarantined,
    /// Storage released. Terminal.
    Freed,
}

/// The steps a slot may take, stuttering included.
pub open spec fn state_step(pre: NodeState, post: NodeState) -> bool {
    ||| pre == post
    ||| (pre == NodeState::Linked && post == NodeState::Unlinked)
    ||| (pre == NodeState::Unlinked && post == NodeState::Quarantined)
    ||| (pre == NodeState::Unlinked && post == NodeState::Freed)
    ||| (pre == NodeState::Quarantined && post == NodeState::Freed)
}

/// A whole history of one slot is valid when every adjacent pair of states is
/// an allowed step.
pub open spec fn valid_history(tr: Seq<NodeState>) -> bool {
    forall|k: int| 0 <= k < tr.len() - 1 ==> #[trigger] state_step(tr[k], tr[k + 1])
}

/// Freed is terminal: once a slot's history reaches `Freed`, every later
/// point of the history is still `Freed`. So along any valid history the
/// storage is released at most once (no double free), and a released slot is
/// never again in a state the queue dereferences (no use after free).
pub proof fn lemma_freed_is_terminal(tr: Seq<NodeState>, i: int, j: int)
    requires
        valid_history(tr),
        0 <= i <= j < tr.len(),
        tr[i] == NodeState::Freed,
    ensures
        tr[j] == NodeState::Freed,
    decreases j - i,
{
    if i < j {
        assert(state_step(tr[i], tr[i + 1]));
        lemma_freed_is_terminal(tr, i + 1, j);
    }
}

/// The hand-offs the queues perform are traces of the step relation: unlink
/// on dequeue and free at once; or unlink, park while a reader may still
/// hold the cell, and free once that is ruled out.
pub proof fn lemma_retirement_traces_valid()
    ensures
        valid_history(
            seq![NodeState::Linked, NodeState::Unlinked, NodeState::Freed],
        ),
        valid_history(
            seq![
                NodeState::Linked,
                NodeState::Unlinked,
                NodeState::Quarantined,
                NodeState::Freed,
            ],
        ),
{
    let immediate = seq![NodeState::Linked, NodeState::Unlinked, NodeState::Freed];
    assert forall|k: int| 0 <= k < immediate.len() - 1 implies #[trigger] state_step(
        immediate[k],
        immediate[k + 1],
    ) by {
        assert(immediate[0] == NodeState::Linked);
        assert(immediate[1] == NodeState::Unlinked);
        assert(immediate[2] == NodeState::Freed);
    }
    let deferred = seq![
        NodeState::Linked,
        NodeState::Unlinked,
        NodeState::Quarantined,
        NodeState::Freed,
    ];
    assert forall|k: int| 0 <= k < deferred.len() - 1 implies #[trigger] state_step(
        deferred[k],
        deferred[k + 1],
    ) by {
        assert(deferred[0] == NodeState::Linked);
        assert(deferred[1] == NodeState::Unlinked);
        assert(deferred[2] == NodeState::Quarantined);
        assert(deferred[3] == NodeState::Freed);
    }
}

/// A valid history never passes through `Freed` twice with anything else in
/// between: the set of points at which the slot is freed is one unbroken
/// suffix of the history.
pub proof fn lemma_free_happens_once(tr: Seq<NodeState>, i: int, j: int, k: int)
    requires
        valid_history(tr),
        0 <= i <= j <= k < tr.len(),
        tr[i] == NodeState::Freed,
        tr[k] == NodeState::Freed,
    ensures
        tr[j] == NodeState::Freed,
{
    lemma_freed_is_terminal(tr, i, j);
}

} // verus!
