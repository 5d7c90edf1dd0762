use queue::epoch::EpochService;
use queue::lock_free_queue::Queue as LfQueue;
use queue::lock_free_queue_by_epoch::Queue as LfeQueue;
use queue::lock_free_queue_no_aba::Queue as LfnQueue;

#[test]
fn immediate_releases_on_dequeue() {
    let mut q = LfQueue::new();
    q.enqueue(10);
    q.enqueue(20);
    assert_eq!(q.allocated(), 3);
    assert_eq!(q.released(), 0);
    assert_eq!(q.dequeue(), Some(10));
    assert_eq!(q.released(), 1);
    assert_eq!(q.dequeue(), Some(20));
    assert_eq!(q.released(), 2);
    assert_eq!(q.allocated(), 3);
}

#[test]
fn hazard_blocks_release() {
    let mut q = LfnQueue::new();
    q.enqueue(41);
    let guarded = q.guard_head().expect("a fresh sentinel carries no hazard");
    assert!(!q.hazard_free());
    assert_eq!(q.dequeue(), Some(41));
    // the retired sentinel is under the reader's counter: parked, not freed
    assert_eq!(q.released(), 0);
    assert_eq!(q.pending_count(), 1);
    assert_eq!(q.reclaim_pending(), 0);
    assert_eq!(q.pending_count(), 1);
    // once the reader leaves, the parked cell can go
    q.unguard(guarded);
    assert!(q.hazard_free());
    assert_eq!(q.reclaim_pending(), 1);
    assert_eq!(q.released(), 1);
    assert_eq!(q.pending_count(), 0);
}

#[test]
fn second_guard_is_refused_while_held() {
    let mut q: LfnQueue<i32> = LfnQueue::new();
    let first = q.guard_head();
    assert!(first.is_some());
    assert_eq!(q.guard_head(), None);
    q.unguard(first.unwrap());
    assert!(q.guard_head().is_some());
}

#[test]
fn unguarded_dequeue_releases_at_once() {
    let mut q = LfnQueue::new();
    q.enqueue(5);
    assert_eq!(q.dequeue(), Some(5));
    assert_eq!(q.released(), 1);
    assert_eq!(q.pending_count(), 0);
}

#[test]
fn epoch_guard_defers_release() {
    let mut q = LfeQueue::new();
    q.enqueue(7);
    let g = q.pin_guard();
    assert_eq!(q.dequeue(), Some(7));
    assert_eq!(q.quarantined_count(), 1);
    // the guard was pinned before the retirement, so nothing may clear
    assert_eq!(q.collect_garbage(), 0);
    assert_eq!(q.released(), 0);
    q.unpin_guard(g);
    assert_eq!(q.collect_garbage(), 1);
    assert_eq!(q.released(), 1);
    assert_eq!(q.quarantined_count(), 0);
}

#[test]
fn epoch_late_guard_does_not_block() {
    let mut q = LfeQueue::new();
    q.enqueue(7);
    assert_eq!(q.dequeue(), Some(7));
    // this guard is pinned after the retirement and cannot have seen the cell
    let g = q.pin_guard();
    assert_eq!(q.collect_garbage(), 1);
    assert_eq!(q.released(), 1);
    q.unpin_guard(g);
}

#[test]
fn epoch_service_collects_cleared_prefix_only() {
    let mut s = EpochService::new();
    let g1 = s.pin();
    s.defer_destroy(&g1, 5);
    let none_yet = s.collect();
    assert_eq!(none_yet, Vec::<usize>::new());
    s.unpin(g1);
    let g2 = s.pin();
    s.defer_destroy(&g2, 8);
    // slot 5 was retired before g2 was pinned; slot 8 under g2 must wait
    let ready = s.collect();
    assert_eq!(ready, vec![5]);
    s.unpin(g2);
    let rest = s.collect();
    assert_eq!(rest, vec![8]);
}

#[test]
fn teardown_releases_every_slot() {
    let mut q = LfQueue::new();
    for i in 0..5 {
        q.enqueue(i);
    }
    assert_eq!(q.dequeue(), Some(0));
    assert_eq!(q.dequeue(), Some(1));
    assert_eq!(q.allocated(), 6);
    assert_eq!(q.released(), 2);
    // three values remain: three cells plus the sentinel go now
    assert_eq!(q.teardown(), 4);
}

#[test]
fn teardown_flushes_quarantine() {
    let mut q = LfnQueue::new();
    q.enqueue(1);
    q.enqueue(2);
    let guarded = q.guard_head().unwrap();
    assert_eq!(q.dequeue(), Some(1));
    q.unguard(guarded);
    assert_eq!(q.pending_count(), 1);
    // one queued value, one parked cell, one sentinel
    assert_eq!(q.teardown(), 3);
}

#[test]
fn epoch_teardown_releases_every_slot() {
    let mut q = LfeQueue::new();
    for i in 0..4 {
        q.enqueue(i);
    }
    assert_eq!(q.dequeue(), Some(0));
    assert_eq!(q.released(), 0);
    assert_eq!(q.quarantined_count(), 1);
    // three queued values, one quarantined cell, one sentinel
    assert_eq!(q.teardown(), 5);
}
