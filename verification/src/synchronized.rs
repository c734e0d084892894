//! The synchronized wrapper: a blocking or awaitable rendezvous on top of
//! the core queue.
//!
//! The wrapper pairs the value queue with a queue of waker latches. A
//! consumer that finds no value registers a fresh latch and suspends; every
//! enqueue pops latches until it has notified one that was still unnotified.
//! The wrapper itself decides — who must suspend, which single latch a
//! producer notifies — and reports whom to wake; actually parking a thread,
//! waking a task or sleeping out a timeout is dispatch work for the host
//! that drives it.

use crate::queue::Dequeue;
use crate::queue::Queue;
use vstd::prelude::*;

verus! {

/// Which kind of suspension a waker latch stands for: a parked OS thread or
/// an asynchronous task. The wrapper only records the kind; the host that
/// runs the suspension keeps the thread or task handle itself.
#[derive(Copy, Clone, PartialEq, Eq, Debug)]
pub enum WakerKind {
    Sync,
    Async,
}

/// A single-shot notification latch. Exactly one of `wake` and `abort` wins
/// the latch; the loser learns that it lost and leaves dispatch (unparking
/// the thread, waking the task, or absorbing a spurious unpark) to the host.
pub struct Waker {
    /// The kind of suspended caller this latch belongs to.
    pub kind: WakerKind,
    /// Whether the notification has been consumed.
    pub notified: bool,
}

impl Waker {
    /// A fresh latch for a parked thread.
    pub fn new_sync() -> (w: Waker)
        ensures
            w.kind == WakerKind::Sync,
            !w.notified,
    {
        Waker { kind: WakerKind::Sync, notified: false }
    }

    /// A fresh latch for an asynchronous task.
    pub fn new_async() -> (w: Waker)
        ensures
            w.kind == WakerKind::Async,
            !w.notified,
    {
        Waker { kind: WakerKind::Async, notified: false }
    }

    /// Consumes the notification. Returns true exactly when this call won
    /// the latch, in which case the caller must dispatch the wake-up
    /// (unpark the thread or wake the task).
    pub fn wake(&mut self) -> (r: bool)
        ensures
            final(self).notified,
            final(self).kind == old(self).kind,
            r == !old(self).notified,
    {
        let was = self.notified;
        self.notified = true;
        !was
    }

    /// Retracts the latch after its owner obtained a value elsewhere.
    /// Returns true exactly when a notification had already been delivered
    /// racing with the abort; a thread-backed owner then absorbs the
    /// spurious unpark by parking once.
    pub fn abort(&mut self) -> (r: bool)
        ensures
            final(self).notified,
            final(self).kind == old(self).kind,
            r == old(self).notified,
    {
        let was = self.notified;
        self.notified = true;
        was
    }
}

/// The wrapper's instruction to a consumer: either the oldest value, or a
/// registered latch the consumer must suspend on until a producer notifies
/// it (park the thread, or return pending from the task).
#[derive(PartialEq, Eq, Debug)]
pub enum DequeueStep<T> {
    Ready(T),
    Suspend(usize),
}

/// The value queue paired with the wake queue. `wakers` holds every latch
/// ever registered, in registration order, so that a latch keeps its place
/// after it leaves the wake queue; the wake queue holds the positions of
/// the latches whose consumers may still be suspended.
pub struct SynchronizedQueue<T> {
    inner: Queue<T>,
    wake_queue: Queue<usize>,
    wakers: Vec<Waker>,
}

impl<T> View for SynchronizedQueue<T> {
    type V = Seq<T>;

    /// The pending values, oldest first.
    closed spec fn view(&self) -> Seq<T> {
        self.inner@
    }
}

impl<T> SynchronizedQueue<T> {
    /// Every latch ever registered, in registration order.
    pub closed spec fn waker_states(&self) -> Seq<Waker> {
        self.wakers@
    }

    /// The positions (into `waker_states`) of the latches still on the wake
    /// queue, oldest first.
    pub closed spec fn pending_wakers(&self) -> Seq<usize> {
        self.wake_queue@
    }

    /// Both queues are well formed and every queued latch position exists.
    pub closed spec fn wf(&self) -> bool {
        &&& self.inner.wf()
        &&& self.wake_queue.wf()
        &&& forall|k: int|
            0 <= k < self.wake_queue@.len() ==> (#[trigger] self.wake_queue@[k])
                < self.wakers@.len()
    }

    /// An empty rendezvous: no values, no latches.
    pub fn new() -> (q: SynchronizedQueue<T>)
        ensures
            q.wf(),
            q@ == Seq::<T>::empty(),
            q.waker_states() == Seq::<Waker>::empty(),
            q.pending_wakers() == Seq::<usize>::empty(),
    {
        SynchronizedQueue { inner: Queue::new(), wake_queue: Queue::new(), wakers: Vec::new() }
    }

    /// Appends a value, then notifies at most one latch: latches are popped
    /// from the wake queue, oldest first, until one is found that was still
    /// unnotified — consumers that aborted their latch after obtaining a
    /// value elsewhere are skipped. Returns the position of the latch this
    /// call notified, whose wake-up the caller must dispatch, or `None` if
    /// every queued latch had already been notified. At most one latch
    /// changes state, and only from unnotified to notified; and whenever an
    /// unnotified latch was queued, one is notified — a suspended consumer
    /// cannot be overlooked.
    pub fn enqueue_notify_spin(&mut self, value: T, spin: usize) -> (woken: Option<usize>)
        requires
            old(self).wf(),
        ensures
            final(self).wf(),
            final(self)@ == old(self)@.push(value),
            woken is None ==> {
                &&& final(self).waker_states() == old(self).waker_states()
                &&& final(self).pending_wakers() == Seq::<usize>::empty()
                &&& forall|j: int|
                    0 <= j < old(self).pending_wakers().len() ==> old(self).waker_states()[(
                    #[trigger] old(self).pending_wakers()[j]) as int].notified
            },
            woken is Some ==> {
                let id = woken->0;
                &&& id < old(self).waker_states().len()
                &&& !old(self).waker_states()[id as int].notified
                &&& final(self).waker_states() == old(self).waker_states().update(
                    id as int,
                    (Waker {
                        kind: old(self).waker_states()[id as int].kind,
                        notified: true,
                    }),
                )
                &&& exists|k: int|
                    {
                        &&& 0 <= k < old(self).pending_wakers().len()
                        &&& (#[trigger] old(self).pending_wakers()[k]) == id
                        &&& final(self).pending_wakers() == old(self).pending_wakers().skip(
                            k + 1,
                        )
                        &&& forall|j: int|
                            0 <= j < k ==> old(self).waker_states()[(#[trigger] old(
                                self,
                            ).pending_wakers()[j]) as int].notified
                    }
            },
            (exists|k: int|
                0 <= k < old(self).pending_wakers().len() && !old(self).waker_states()[(
                #[trigger] old(self).pending_wakers()[k]) as int].notified) ==> woken is Some,
    {
        self.inner.enqueue(value);
        let ghost p0 = self.wake_queue@;
        let ghost ws0 = self.wakers@;
        let ghost mut done: int = 0;
        let mut woken: Option<usize> = None;
        loop
            invariant_except_break
                self.wf(),
                self.inner@ == old(self)@.push(value),
                self.wakers@ == ws0,
                woken is None,
                0 <= done <= p0.len(),
                self.wake_queue@ == p0.skip(done),
                forall|j: int| 0 <= j < done ==> ws0[(#[trigger] p0[j]) as int].notified,
            ensures
                self.wf(),
                self.inner@ == old(self)@.push(value),
                woken is None ==> {
                    &&& self.wakers@ == ws0
                    &&& self.wake_queue@ == Seq::<usize>::empty()
                    &&& forall|j: int|
                        0 <= j < p0.len() ==> ws0[(#[trigger] p0[j]) as int].notified
                },
                woken is Some ==> {
                    let id = woken->0;
                    &&& id < ws0.len()
                    &&& !ws0[id as int].notified
                    &&& self.wakers@ == ws0.update(
                        id as int,
                        (Waker { kind: ws0[id as int].kind, notified: true }),
                    )
                    &&& exists|k: int|
                        {
                            &&& 0 <= k < p0.len()
                            &&& (#[trigger] p0[k]) == id
                            &&& self.wake_queue@ == p0.skip(k + 1)
                            &&& forall|j: int|
                                0 <= j < k ==> ws0[(#[trigger] p0[j]) as int].notified
                        }
                },
            decreases self.wake_queue@.len(),
        {
            match self.wake_queue.dequeue_spin(spin) {
                Dequeue::Data(id) => {
                    proof {
                        assert(id == p0[done]);
                    }
                    let flipped = {
                        let waker = &mut self.wakers[id];
                        waker.wake()
                    };
                    if flipped {
                        woken = Some(id);
                        proof {
                            assert(self.wakers@ =~= ws0.update(
                                id as int,
                                (Waker { kind: ws0[id as int].kind, notified: true }),
                            ));
                            assert(self.wake_queue@ == p0.skip(done + 1));
                        }
                        break ;
                    }
                    proof {
                        assert(self.wakers@ =~= ws0);
                        done = done + 1;
                    }
                },
                _ => {
                    break ;
                },
            }
        }
        woken
    }

    /// Appends a value and notifies at most one latch, without any spin
    /// budget.
    pub fn enqueue(&mut self, value: T) -> (woken: Option<usize>)
        requires
            old(self).wf(),
        ensures
            final(self).wf(),
            final(self)@ == old(self)@.push(value),
            woken is None ==> {
                &&& final(self).waker_states() == old(self).waker_states()
                &&& final(self).pending_wakers() == Seq::<usize>::empty()
                &&& forall|j: int|
                    0 <= j < old(self).pending_wakers().len() ==> old(self).waker_states()[(
                    #[trigger] old(self).pending_wakers()[j]) as int].notified
            },
            woken is Some ==> {
                let id = woken->0;
                &&& id < old(self).waker_states().len()
                &&& !old(self).waker_states()[id as int].notified
                &&& final(self).waker_states() == old(self).waker_states().update(
                    id as int,
                    (Waker {
                        kind: old(self).waker_states()[id as int].kind,
                        notified: true,
                    }),
                )
            },
            (exists|k: int|
                0 <= k < old(self).pending_wakers().len() && !old(self).waker_states()[(
                #[trigger] old(self).pending_wakers()[k]) as int].notified) ==> woken is Some,
    {
        self.enqueue_notify_spin(value, 0)
    }

    /// Removes the oldest value if there is one, without suspending: the
    /// non-blocking fast path. Latches are untouched.
    pub fn try_dequeue_spin(&mut self, spin: usize) -> (r: Dequeue<T>)
        requires
            old(self).wf(),
        ensures
            final(self).wf(),
            final(self).waker_states() == old(self).waker_states(),
            final(self).pending_wakers() == old(self).pending_wakers(),
            old(self)@.len() == 0 ==> r == Dequeue::<T>::Empty && final(self)@ == old(self)@,
            old(self)@.len() > 0 ==> {
                &&& r == Dequeue::Data(old(self)@[0])
                &&& final(self)@ == old(self)@.drop_first()
            },
    {
        self.inner.dequeue_spin(spin)
    }

    /// Removes the oldest value if there is one, without suspending and
    /// without any spin budget.
    pub fn try_dequeue(&mut self) -> (r: Dequeue<T>)
        requires
            old(self).wf(),
        ensures
            final(self).wf(),
            final(self).waker_states() == old(self).waker_states(),
            final(self).pending_wakers() == old(self).pending_wakers(),
            old(self)@.len() == 0 ==> r == Dequeue::<T>::Empty && final(self)@ == old(self)@,
            old(self)@.len() > 0 ==> {
                &&& r == Dequeue::Data(old(self)@[0])
                &&& final(self)@ == old(self)@.drop_first()
            },
    {
        self.try_dequeue_spin(0)
    }

    /// One step of a blocking or awaitable dequeue: take the oldest value
    /// if there is one; otherwise register a fresh latch of the caller's
    /// kind on the wake queue and instruct the caller to suspend on it.
    /// Because the latch is registered while the queue is still empty, a
    /// producer that appends afterwards finds it on the wake queue: either
    /// the consumer got a value, or a wake-up is owed to it — no wake-up is
    /// lost. A host drives a blocking dequeue by repeating this step after
    /// each wake-up (and an awaitable one by polling it), then dispatching
    /// the suspension it is instructed to.
    pub fn poll_dequeue(&mut self, spin: usize, kind: WakerKind) -> (step: DequeueStep<T>)
        requires
            old(self).wf(),
        ensures
            final(self).wf(),
            old(self)@.len() > 0 ==> {
                &&& step == DequeueStep::Ready(old(self)@[0])
                &&& final(self)@ == old(self)@.drop_first()
                &&& final(self).waker_states() == old(self).waker_states()
                &&& final(self).pending_wakers() == old(self).pending_wakers()
            },
            old(self)@.len() == 0 ==> {
                let id = old(self).waker_states().len();
                &&& step == DequeueStep::<T>::Suspend(id as usize)
                &&& final(self)@ == old(self)@
                &&& final(self).waker_states() == old(self).waker_states().push(
                    (Waker { kind: kind, notified: false }),
                )
                &&& final(self).pending_wakers() == old(self).pending_wakers().push(id as usize)
            },
    {
        match self.try_dequeue_spin(spin) {
            Dequeue::Data(v) => DequeueStep::Ready(v),
            _ => {
                let id = self.wakers.len();
                let waker = match kind {
                    WakerKind::Sync => Waker::new_sync(),
                    WakerKind::Async => Waker::new_async(),
                };
                self.wakers.push(waker);
                self.wake_queue.enqueue(id);
                DequeueStep::Suspend(id)
            },
        }
    }

    /// Retracts the latch at `id` after its consumer obtained a value
    /// elsewhere, so that a later producer skips it. Returns true exactly
    /// when a notification had already been delivered to it; a
    /// thread-backed consumer then absorbs the spurious unpark by parking
    /// once, as `Waker::abort` describes.
    pub fn abort_waker(&mut self, id: usize) -> (r: bool)
        requires
            old(self).wf(),
            id < old(self).waker_states().len(),
        ensures
            final(self).wf(),
            final(self)@ == old(self)@,
            final(self).pending_wakers() == old(self).pending_wakers(),
            r == old(self).waker_states()[id as int].notified,
            final(self).waker_states() == old(self).waker_states().update(
                id as int,
                (Waker { kind: old(self).waker_states()[id as int].kind, notified: true }),
            ),
    {
        let r = {
            let waker = &mut self.wakers[id];
            waker.abort()
        };
        proof {
            assert(self.wakers@ =~= old(self).wakers@.update(
                id as int,
                (Waker { kind: old(self).wakers@[id as int].kind, notified: true }),
            ));
        }
        r
    }
}

} // verus!
