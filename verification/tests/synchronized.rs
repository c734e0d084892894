use mpmc_queue::Dequeue;
use mpmc_queue::DequeueStep;
use mpmc_queue::SynchronizedQueue;
use mpmc_queue::Waker;
use mpmc_queue::WakerKind;

#[test]
fn waker_wakes_once() {
    let mut waker = Waker::new_sync();
    assert_eq!(waker.kind, WakerKind::Sync);
    assert!(!waker.notified);
    assert!(waker.wake());
    assert!(!waker.wake());
    assert!(waker.notified);
}

#[test]
fn waker_abort_consumes_the_latch() {
    // abort first: no notification had been delivered, and a later wake
    // reports that it lost the latch
    let mut waker = Waker::new_async();
    assert_eq!(waker.kind, WakerKind::Async);
    assert!(!waker.abort());
    assert!(!waker.wake());
    // wake first: the abort learns a notification was already delivered
    let mut other = Waker::new_sync();
    assert!(other.wake());
    assert!(other.abort());
}

#[test]
fn try_dequeue_without_consumers() {
    let mut queue = SynchronizedQueue::new();
    assert_eq!(queue.try_dequeue(), Dequeue::Empty);
    assert_eq!(queue.enqueue(3), None);
    assert_eq!(queue.try_dequeue(), Dequeue::Data(3));
    assert_eq!(queue.try_dequeue_spin(8), Dequeue::Empty);
}

#[test]
fn handoff_wakes_the_suspended_consumer() {
    let mut queue = SynchronizedQueue::new();
    // the consumer finds nothing and registers latch 0
    assert_eq!(queue.poll_dequeue(0, WakerKind::Sync), DequeueStep::Suspend(0));
    // the producer appends and is told to wake that latch
    assert_eq!(queue.enqueue_notify_spin(42, 0), Some(0));
    // woken, the consumer repeats the step and gets the value
    assert_eq!(queue.poll_dequeue(0, WakerKind::Sync), DequeueStep::Ready(42));
}

#[test]
fn one_wake_per_enqueue() {
    let mut queue = SynchronizedQueue::new();
    assert_eq!(queue.poll_dequeue(0, WakerKind::Sync), DequeueStep::Suspend(0));
    assert_eq!(queue.poll_dequeue(0, WakerKind::Async), DequeueStep::Suspend(1));
    // each enqueue notifies exactly one latch, oldest first
    assert_eq!(queue.enqueue(10), Some(0));
    assert_eq!(queue.enqueue(11), Some(1));
    assert_eq!(queue.enqueue(12), None);
    assert_eq!(queue.try_dequeue(), Dequeue::Data(10));
}

#[test]
fn aborted_latch_is_skipped() {
    let mut queue = SynchronizedQueue::new();
    assert_eq!(queue.poll_dequeue(0, WakerKind::Sync), DequeueStep::Suspend(0));
    assert_eq!(queue.poll_dequeue(0, WakerKind::Sync), DequeueStep::Suspend(1));
    // the first consumer got its value elsewhere and retracts its latch
    assert!(!queue.abort_waker(0));
    // the producer skips the aborted latch and wakes the live one
    assert_eq!(queue.enqueue(7), Some(1));
}

#[test]
fn rendezvous_in_steps() {
    // the S4 handoff with the suspension driven by hand: the consumer polls,
    // is told to suspend, the producer appends, the woken consumer polls
    // again and gets the value
    let mut queue = SynchronizedQueue::new();
    let step = queue.poll_dequeue(0, WakerKind::Sync);
    assert_eq!(step, DequeueStep::Suspend(0));
    let woken = queue.enqueue_notify_spin(0, 0);
    assert_eq!(woken, Some(0));
    match queue.poll_dequeue(0, WakerKind::Sync) {
        DequeueStep::Ready(v) => assert_eq!(v, 0),
        DequeueStep::Suspend(_) => panic!("a value was pending"),
    }
}
