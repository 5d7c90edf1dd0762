//! The first-in-first-out discipline all four queues promise, stated over
//! the mathematical model.
//!
//! Every queue in this crate views its contents as a sequence, enqueue as
//! appending at the back, and dequeue as taking the front — that is exactly
//! what their contracts say. The laws here are stated and proved once over
//! that model: order for a single producer, idempotence of dequeuing an
//! empty queue, and conservation of values across any interleaving of two
//! producers.

use vstd::prelude::*;
use vstd::seq_lib::to_multiset_contains;
use vstd::seq_lib::to_multiset_len;
use vstd::seq_lib::to_multiset_remove;

verus! {

/// What enqueuing `x` does to a queue holding `s`.
pub open spec fn enqueue_effect<T>(s: Seq<T>, x: T) -> Seq<T> {
    s.push(x)
}

/// What dequeue returns on a queue holding `s`.
pub open spec fn dequeue_result<T>(s: Seq<T>) -> Option<T> {
    if s.len() == 0 {
        None
    } else {
        Some(s[0])
    }
}

/// What dequeue leaves behind on a queue holding `s`.
pub open spec fn dequeue_effect<T>(s: Seq<T>) -> Seq<T> {
    if s.len() == 0 {
        s
    } else {
        s.drop_first()
    }
}

/// First in, first out for a single producer: enqueuing `v1`, `v2`, `v3`
/// into an empty queue and then dequeuing four times yields exactly
/// `Some(v1)`, `Some(v2)`, `Some(v3)`, and then nothing.
pub proof fn lemma_fifo_per_producer<T>(v1: T, v2: T, v3: T)
    ensures
        ({
            let s3 = enqueue_effect(enqueue_effect(enqueue_effect(Seq::<T>::empty(), v1), v2), v3);
            let s2 = dequeue_effect(s3);
            let s1 = dequeue_effect(s2);
            let s0 = dequeue_effect(s1);
            &&& dequeue_result(s3) == Some(v1)
            &&& dequeue_result(s2) == Some(v2)
            &&& dequeue_result(s1) == Some(v3)
            &&& dequeue_result(s0) == None::<T>
            &&& s0.len() == 0
        }),
{
    let s3 = enqueue_effect(enqueue_effect(enqueue_effect(Seq::<T>::empty(), v1), v2), v3);
    assert(s3 =~= seq![v1, v2, v3]);
    assert(dequeue_effect(s3) =~= seq![v2, v3]);
    assert(dequeue_effect(dequeue_effect(s3)) =~= seq![v3]);
    assert(dequeue_effect(dequeue_effect(dequeue_effect(s3))) =~= Seq::<T>::empty());
}

/// Dequeuing an empty queue yields nothing and changes nothing, however
/// often it is repeated.
pub proof fn lemma_empty_dequeue_idempotent<T>()
    ensures
        dequeue_result(Seq::<T>::empty()) == None::<T>,
        dequeue_effect(Seq::<T>::empty()) == Seq::<T>::empty(),
{
}

/// `c` is one of the ways the two producer histories `a` and `b` can merge
/// into a single queue history: each step of `c` takes the next unconsumed
/// value of `a` or of `b`, keeping the relative order within each.
pub open spec fn is_interleaving<T>(a: Seq<T>, b: Seq<T>, c: Seq<T>) -> bool
    decreases c.len(),
{
    if c.len() == 0 {
        a.len() == 0 && b.len() == 0
    } else {
        ||| (a.len() > 0 && a[0] == c[0] && is_interleaving(a.drop_first(), b, c.drop_first()))
        ||| (b.len() > 0 && b[0] == c[0] && is_interleaving(a, b.drop_first(), c.drop_first()))
    }
}

/// Taking the front off a sequence takes one occurrence of its first value
/// out of its multiset and nothing else.
proof fn lemma_drop_first_to_multiset<T>(s: Seq<T>)
    requires
        s.len() > 0,
    ensures
        s.to_multiset() == s.drop_first().to_multiset().insert(s[0]),
{
    to_multiset_remove(s, 0);
    assert(s.remove(0) =~= s.drop_first());
    to_multiset_contains(s, s[0]);
    assert(s.contains(s[0])) by {
        assert(s[0] == s[0]);
    }
    assert(s.to_multiset().remove(s[0]).insert(s[0]) =~= s.to_multiset());
}

/// Conservation: merging two producer histories loses nothing and invents
/// nothing — the merged history holds exactly the values of the two
/// histories, each as often as it was enqueued.
pub proof fn lemma_interleaving_conservation<T>(a: Seq<T>, b: Seq<T>, c: Seq<T>)
    requires
        is_interleaving(a, b, c),
    ensures
        c.to_multiset() == a.to_multiset().add(b.to_multiset()),
    decreases c.len(),
{
    if c.len() == 0 {
        to_multiset_len(a);
        to_multiset_len(b);
        to_multiset_len(c);
        assert(c.to_multiset() =~= a.to_multiset().add(b.to_multiset())) by {
            assert forall|x: T| c.to_multiset().count(x) == a.to_multiset().add(
                b.to_multiset(),
            ).count(x) by {
                to_multiset_contains(a, x);
                to_multiset_contains(b, x);
                to_multiset_contains(c, x);
            }
        }
    } else if a.len() > 0 && a[0] == c[0] && is_interleaving(a.drop_first(), b, c.drop_first()) {
        lemma_interleaving_conservation(a.drop_first(), b, c.drop_first());
        lemma_drop_first_to_multiset(c);
        lemma_drop_first_to_multiset(a);
        assert(c.to_multiset() =~= a.to_multiset().add(b.to_multiset()));
    } else {
        lemma_interleaving_conservation(a, b.drop_first(), c.drop_first());
        lemma_drop_first_to_multiset(c);
        lemma_drop_first_to_multiset(b);
        assert(c.to_multiset() =~= a.to_multiset().add(b.to_multiset()));
    }
}

/// The sum of a sequence of integers, front first.
pub open spec fn seq_sum(s: Seq<int>) -> int
    decreases s.len(),
{
    if s.len() == 0 {
        0
    } else {
        s[0] + seq_sum(s.drop_first())
    }
}

/// Conservation in the form the drained-sum check relies on: the sum over
/// any merge of two producer histories is the sum over the one plus the sum
/// over the other.
pub proof fn lemma_interleaving_sum(a: Seq<int>, b: Seq<int>, c: Seq<int>)
    requires
        is_interleaving(a, b, c),
    ensures
        seq_sum(c) == seq_sum(a) + seq_sum(b),
    decreases c.len(),
{
    if c.len() == 0 {
    } else if a.len() > 0 && a[0] == c[0] && is_interleaving(a.drop_first(), b, c.drop_first()) {
        lemma_interleaving_sum(a.drop_first(), b, c.drop_first());
    } else {
        lemma_interleaving_sum(a, b.drop_first(), c.drop_first());
    }
}

} // verus!
