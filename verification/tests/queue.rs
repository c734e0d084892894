use mpmc_queue::Dequeue;
use mpmc_queue::Queue;

#[test]
fn synchronous() {
    let mut queue = Queue::new();
    assert_eq!(queue.dequeue(), Dequeue::Empty);
    queue.enqueue(0);
    assert_eq!(queue.dequeue(), Dequeue::Data(0));
    queue.enqueue(1);
    assert_eq!(queue.dequeue(), Dequeue::Data(1));
    queue.enqueue(2);
    queue.enqueue(3);
    assert_eq!(queue.dequeue(), Dequeue::Data(2));
    queue.enqueue(4);
    queue.enqueue(5);
    assert_eq!(queue.dequeue(), Dequeue::Data(3));
    assert_eq!(queue.dequeue(), Dequeue::Data(4));
    assert_eq!(queue.dequeue(), Dequeue::Data(5));
    assert_eq!(queue.dequeue(), Dequeue::Empty);
}

#[test]
fn single_element() {
    let mut queue = Queue::new();
    queue.enqueue(0);
    assert_eq!(queue.dequeue(), Dequeue::Data(0));
    assert_eq!(queue.dequeue(), Dequeue::Empty);
}

#[test]
fn empty_stays_empty() {
    let mut queue: Queue<u32> = Queue::new();
    assert_eq!(queue.dequeue(), Dequeue::Empty);
    assert_eq!(queue.dequeue_spin(16), Dequeue::Empty);
    assert_eq!(queue.node_count(), 0);
}

#[test]
fn data_projection() {
    assert_eq!(Dequeue::Data(5).data(), Some(5));
    assert_eq!(Dequeue::<u32>::Empty.data(), None);
    assert_eq!(Dequeue::<u32>::Spin.data(), None);
}

#[test]
fn fifo_order_long() {
    let mut queue = Queue::new();
    for i in 0..100u64 {
        queue.enqueue(i);
    }
    for i in 0..100u64 {
        assert_eq!(queue.dequeue(), Dequeue::Data(i));
    }
    assert_eq!(queue.dequeue(), Dequeue::Empty);
}

#[test]
fn spin_budget_changes_nothing() {
    let mut queue = Queue::new();
    queue.enqueue(7);
    queue.enqueue(8);
    assert_eq!(queue.dequeue_spin(32), Dequeue::Data(7));
    assert_eq!(queue.dequeue_spin(0), Dequeue::Data(8));
    assert_eq!(queue.dequeue_spin(32), Dequeue::Empty);
}

#[test]
fn nodes_are_recycled() {
    let mut queue = Queue::new();
    for i in 0..50u32 {
        queue.enqueue(i);
        assert_eq!(queue.dequeue(), Dequeue::Data(i));
    }
    // one value was pending at a time: one node serves the whole run
    assert_eq!(queue.node_count(), 1);
    queue.enqueue(50);
    queue.enqueue(51);
    assert_eq!(queue.node_count(), 2);
    assert_eq!(queue.dequeue(), Dequeue::Data(50));
    assert_eq!(queue.dequeue(), Dequeue::Data(51));
    for i in 0..50u32 {
        queue.enqueue(i);
        queue.enqueue(i + 100);
        assert_eq!(queue.dequeue(), Dequeue::Data(i));
        assert_eq!(queue.dequeue(), Dequeue::Data(i + 100));
    }
    // never more than two pending: the arena never grows past two
    assert_eq!(queue.node_count(), 2);
}

#[test]
fn owned_values_move_through() {
    let mut queue = Queue::new();
    queue.enqueue(String::from("first"));
    queue.enqueue(String::from("second"));
    assert_eq!(queue.dequeue(), Dequeue::Data(String::from("first")));
    assert_eq!(queue.dequeue().data(), Some(String::from("second")));
    assert_eq!(queue.dequeue(), Dequeue::Empty);
}

#[test]
fn interleaved_batches() {
    let mut queue = Queue::new();
    queue.enqueue(1);
    queue.enqueue(2);
    assert_eq!(queue.dequeue(), Dequeue::Data(1));
    queue.enqueue(3);
    queue.enqueue(4);
    queue.enqueue(5);
    assert_eq!(queue.dequeue(), Dequeue::Data(2));
    assert_eq!(queue.dequeue(), Dequeue::Data(3));
    queue.enqueue(6);
    assert_eq!(queue.dequeue(), Dequeue::Data(4));
    assert_eq!(queue.dequeue(), Dequeue::Data(5));
    assert_eq!(queue.dequeue(), Dequeue::Data(6));
    assert_eq!(queue.dequeue(), Dequeue::Empty);
}
