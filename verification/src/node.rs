//! The linked-list cell the index-linked queues are built from, and the shape
//! of a well-formed chain of such cells.
//!
//! Nodes live in an arena (a growable buffer) and point at each other by
//! arena index rather than by address; `NIL` is the reserved index that plays
//! the role of a null link. Following a link is an arena lookup, so a link
//! can never outlive the arena, and the reclamation disciplines deal in
//! indices throughout.

use vstd::prelude::*;

use crate::reclaim::NodeState;

verus! {

/// Reserved index no arena slot ever receives; the null link.
pub const NIL: usize = usize::MAX;

/// One linked-list cell: an optional payload (absent only for a sentinel), a
/// link to the next cell, its lifecycle state, and a hazard counter that only
/// the counter-gated reclamation discipline raises.
pub struct Node<T> {
    pub value: Option<T>,
    pub next: usize,
    pub state: NodeState,
    pub refct: usize,
}

impl<T> Node<T> {
    /// A fresh cell holding `value`, not yet linked to anything.
    pub fn new(value: T) -> (n: Node<T>)
        ensures
            n.value == Some(value),
            n.next == NIL,
            n.state == NodeState::Linked,
            n.refct == 0,
    {
        Node { value: Some(value), next: NIL, state: NodeState::Linked, refct: 0 }
    }

    /// A sentinel cell: no payload, no successor.
    pub fn sentinel() -> (n: Node<T>)
        ensures
            n.value is None,
            n.next == NIL,
            n.state == NodeState::Linked,
            n.refct == 0,
    {
        Node { value: None, next: NIL, state: NodeState::Linked, refct: 0 }
    }
}

impl<T> Default for Node<T> {
    /// The default cell is a sentinel.
    fn default() -> (n: Self)
        ensures
            n.value is None,
            n.next == NIL,
            n.state == NodeState::Linked,
            n.refct == 0,
    {
        Node::sentinel()
    }
}

/// The chain `c` is a well-formed null-terminated list inside `arena`: it
/// starts at the sentinel (no payload), every later cell carries a payload,
/// each cell links to the next one, the last cell links to `NIL`, and no cell
/// appears twice.
pub open spec fn chain_ok<T>(arena: Seq<Node<T>>, c: Seq<usize>) -> bool {
    &&& c.len() >= 1
    &&& forall|i: int| 0 <= i < c.len() ==> (#[trigger] c[i]) < arena.len()
    &&& forall|i: int, j: int| 0 <= i < j < c.len() ==> c[i] != c[j]
    &&& forall|i: int| 0 <= i < c.len() - 1 ==> arena[#[trigger] c[i] as int].next == c[i + 1]
    &&& arena[c.last() as int].next == NIL
    &&& arena[c[0] as int].value is None
    &&& forall|i: int| 1 <= i < c.len() ==> arena[#[trigger] c[i] as int].value is Some
}

/// The values a chain holds, oldest first; the sentinel contributes none.
pub open spec fn chain_values<T>(arena: Seq<Node<T>>, c: Seq<usize>) -> Seq<T>
    recommends
        chain_ok(arena, c),
{
    Seq::new((c.len() - 1) as nat, |i: int| arena[c[i + 1] as int].value.unwrap())
}

} // verus!
