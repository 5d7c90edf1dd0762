use queue::lock_based_queue::Queue as LbQueue;
use queue::lock_free_queue::Queue as LfQueue;
use queue::lock_free_queue_by_epoch::Queue as LfeQueue;
use queue::lock_free_queue_no_aba::Queue as LfnQueue;

#[test]
fn test_lock_free_queue() {
    let mut queue = LfQueue::new();

    queue.enqueue(1);
    queue.enqueue(2);
    queue.enqueue(3);

    assert_eq!(queue.dequeue(), Some(1));
    assert_eq!(queue.dequeue(), Some(2));
    assert_eq!(queue.dequeue(), Some(3));
    assert_eq!(queue.dequeue(), None);
}

#[test]
fn test_lock_based_queue() {
    let mut queue = LbQueue::new();

    queue.enqueue(1);
    queue.enqueue(2);
    queue.enqueue(3);

    assert_eq!(queue.dequeue(), Some(1));
    assert_eq!(queue.dequeue(), Some(2));
    assert_eq!(queue.dequeue(), Some(3));
    assert_eq!(queue.dequeue(), None);
}

#[test]
fn lock_based_queue_test_in_single_thread() {
    let mut queue = LbQueue::new();

    queue.enqueue(1);
    queue.enqueue(2);
    queue.enqueue(3);

    assert_eq!(queue.dequeue(), Some(1));
    assert_eq!(queue.dequeue(), Some(2));
    assert_eq!(queue.dequeue(), Some(3));
    assert_eq!(queue.dequeue(), None);
}

#[test]
fn lock_free_queue_test_in_single_thread() {
    let mut queue = LfQueue::new();

    queue.enqueue(1);
    queue.enqueue(2);
    queue.enqueue(3);

    assert_eq!(queue.dequeue(), Some(1));
    assert_eq!(queue.dequeue(), Some(2));
    assert_eq!(queue.dequeue(), Some(3));
    assert_eq!(queue.dequeue(), None);
}

#[test]
fn lock_free_queue_by_epoch_test_in_single_thread() {
    let mut queue = LfeQueue::new();

    queue.enqueue(1);
    queue.enqueue(2);
    queue.enqueue(3);

    assert_eq!(queue.dequeue(), Some(1));
    assert_eq!(queue.dequeue(), Some(2));
    assert_eq!(queue.dequeue(), Some(3));
    assert_eq!(queue.dequeue(), None);
}

#[test]
fn lock_free_queue_no_aba_test_in_single_thread() {
    let mut queue = LfnQueue::new();

    queue.enqueue(1);
    queue.enqueue(2);
    queue.enqueue(3);

    assert_eq!(queue.dequeue(), Some(1));
    assert_eq!(queue.dequeue(), Some(2));
    assert_eq!(queue.dequeue(), Some(3));
    assert_eq!(queue.dequeue(), None);
}

#[test]
fn empty_dequeue_is_none_repeatedly() {
    let mut lf: LfQueue<i32> = LfQueue::new();
    assert_eq!(lf.dequeue(), None);
    assert_eq!(lf.dequeue(), None);
    assert_eq!(lf.allocated(), 1);
    assert_eq!(lf.released(), 0);

    let mut lb: LbQueue<i32> = LbQueue::new();
    assert_eq!(lb.dequeue(), None);
    assert_eq!(lb.dequeue(), None);

    let mut lfn: LfnQueue<i32> = LfnQueue::new();
    assert_eq!(lfn.dequeue(), None);
    assert_eq!(lfn.dequeue(), None);
    assert_eq!(lfn.released(), 0);
    assert_eq!(lfn.pending_count(), 0);

    let mut lfe: LfeQueue<i32> = LfeQueue::new();
    assert_eq!(lfe.dequeue(), None);
    assert_eq!(lfe.dequeue(), None);
    assert_eq!(lfe.released(), 0);
    assert_eq!(lfe.quarantined_count(), 0);
    assert_eq!(lfe.clock(), 0);
}

#[test]
fn default_queues_start_empty() {
    let mut lf: LfQueue<u8> = LfQueue::default();
    assert_eq!(lf.dequeue(), None);
    let mut lb: LbQueue<u8> = LbQueue::default();
    assert_eq!(lb.dequeue(), None);
    let mut lfn: LfnQueue<u8> = LfnQueue::default();
    assert_eq!(lfn.dequeue(), None);
    let mut lfe: LfeQueue<u8> = LfeQueue::default();
    assert_eq!(lfe.dequeue(), None);
}
