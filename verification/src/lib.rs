//! An unbounded MPMC FIFO queue with a recycled node pool, and a
//! synchronized wrapper that turns it into a blocking or awaitable
//! rendezvous.
//!
//! The core queue keeps its nodes in an arena and hands retired nodes to a
//! free-list cache, so that a steady enqueue/dequeue load allocates nothing.
//! Every value is tagged with a monotonically assigned (wrapping) sequence
//! number; dequeuers claim a sequence number and extract exactly the value
//! that carries it, which is what makes the queue FIFO and duplication-free.
//!
//! The synchronized wrapper pairs the value queue with a queue of single-shot
//! waker latches: a consumer that finds the queue empty registers a latch and
//! suspends; every enqueue notifies at most one latch. Parking, timeouts and
//! task wake-ups are dispatch work that a host performs on the wrapper's
//! instructions.

pub mod queue;
pub mod synchronized;

pub use queue::Dequeue;
pub use queue::Queue;
pub use synchronized::DequeueStep;
pub use synchronized::SynchronizedQueue;
pub use synchronized::Waker;
pub use synchronized::WakerKind;
