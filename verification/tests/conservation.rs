use queue::lock_based_queue::Queue as LbQueue;
use queue::lock_free_queue::Queue as LfQueue;
use queue::lock_free_queue_no_aba::Queue as LfnQueue;

#[test]
fn conserves_interleaved_ranges() {
    // Two producers' ranges, merged one value each in turn; the drain must
    // hand back every value exactly once, whatever the merge order was.
    let mut queue = LfQueue::new();
    for i in 0..1000 {
        queue.enqueue(i);
        queue.enqueue(1000 + i);
    }
    let mut seen = vec![false; 2000];
    let mut sum: i64 = 0;
    let mut count = 0;
    while let Some(v) = queue.dequeue() {
        assert!(!seen[v as usize]);
        seen[v as usize] = true;
        sum += v as i64;
        count += 1;
    }
    assert_eq!(count, 2000);
    assert_eq!(sum, 1999000);
    assert!(seen.iter().all(|&b| b));
}

#[test]
fn lock_based_conserves_interleaved_ranges() {
    let mut queue = LbQueue::new();
    for i in 0..1000 {
        queue.enqueue(i);
        queue.enqueue(1000 + i);
    }
    let mut sum: i64 = 0;
    while let Some(v) = queue.dequeue() {
        sum += v as i64;
    }
    assert_eq!(sum, 1999000);
}

#[test]
fn drain_returns_all_in_order() {
    let mut queue = LfQueue::new();
    for i in 0..10 {
        queue.enqueue(i);
    }
    let vals = queue.drain();
    assert_eq!(vals, (0..10).collect::<Vec<_>>());
    assert_eq!(queue.dequeue(), None);
    assert_eq!(queue.released(), 10);
}

#[test]
fn hazard_queue_conserves_interleaved_ranges() {
    let mut queue = LfnQueue::new();
    for i in 0..100 {
        queue.enqueue(i);
        queue.enqueue(100 + i);
    }
    let vals = queue.drain();
    assert_eq!(vals.len(), 200);
    let sum: i64 = vals.iter().map(|&v| v as i64).sum();
    assert_eq!(sum, 19900);
}
