//! The lock-free core queue, modelled with exclusive access.
//!
//! Nodes live in an arena (`Vec<Node<T>>`) and are linked by arena indices:
//! `next` chains the pending values from the removal frontier (`tail`) to the
//! insertion frontier (`head`), and `prev` chains retired nodes through the
//! free-list cache. Each pending node carries a sequence number; the queue's
//! own `index` counter holds the sequence number of the next value to
//! dequeue. With exclusive access every compare-and-swap of the protocol
//! succeeds at once, and the transient states that concurrent callers could
//! observe (a published node whose sequence number is not yet visible, a
//! swung head whose forward link is not yet written) are proved unreachable:
//! `dequeue_spin` never actually answers `Spin`.

use vstd::prelude::*;

verus! {

/// The wrap modulus of the sequence counter is the machine word; sequence
/// number `base + k` is `base` advanced `k` times with wrapping addition.
pub open spec fn seq_index_at(base: usize, k: nat) -> usize
    decreases k,
{
    if k == 0 {
        base
    } else {
        vstd::wrapping::usize_specs::wrapping_add(seq_index_at(base, (k - 1) as nat), 1)
    }
}

/// Advancing the base by one and taking `k` steps is the same as taking
/// `k + 1` steps: the justification for bumping the queue's counter when a
/// value is claimed while every remaining node keeps its sequence number.
proof fn lemma_seq_index_shift(base: usize, k: nat)
    ensures
        seq_index_at(vstd::wrapping::usize_specs::wrapping_add(base, 1), k) == seq_index_at(
            base,
            k + 1,
        ),
    decreases k,
{
    let stepped = vstd::wrapping::usize_specs::wrapping_add(base, 1);
    if k == 0 {
        assert(seq_index_at(base, 1) == vstd::wrapping::usize_specs::wrapping_add(
            seq_index_at(base, 0),
            1,
        ));
    } else {
        lemma_seq_index_shift(base, (k - 1) as nat);
        assert(seq_index_at(stepped, k) == vstd::wrapping::usize_specs::wrapping_add(
            seq_index_at(stepped, (k - 1) as nat),
            1,
        ));
        assert(seq_index_at(base, k + 1) == vstd::wrapping::usize_specs::wrapping_add(
            seq_index_at(base, k),
            1,
        ));
    }
}

/// A write-once-per-occupancy optional sequence number. In the concurrent
/// protocol the flag is published with release ordering and doubles as the
/// readiness token for dequeuers; here it is a plain latch with the same
/// write-once discipline.
struct NodeIndex {
    value: usize,
    is_set: bool,
}

impl NodeIndex {
    fn new() -> (r: NodeIndex)
        ensures
            !r.is_set,
    {
        NodeIndex { value: 0, is_set: false }
    }

    fn get(&self) -> (r: Option<usize>)
        ensures
            r == (if self.is_set {
                Some(self.value)
            } else {
                None::<usize>
            }),
    {
        if self.is_set {
            Some(self.value)
        } else {
            None
        }
    }

    fn set(&mut self, value: usize)
        requires
            !old(self).is_set,
        ensures
            final(self).is_set,
            final(self).value == value,
    {
        self.value = value;
        self.is_set = true;
    }

    fn unset(&mut self)
        requires
            old(self).is_set,
        ensures
            !final(self).is_set,
    {
        self.is_set = false;
    }
}

/// One slot of the arena. `value` is occupied exactly while the node stands
/// between enqueue publication and dequeue extraction; `prev` is written by
/// the producer that owns the node (and reused as the free-list link while
/// the node is cached); `next` is written once per occupancy by the
/// successor's producer.
struct Node<T> {
    value: Option<T>,
    index: NodeIndex,
    prev: Option<usize>,
    next: Option<usize>,
}

impl<T> Node<T> {
    fn new() -> (r: Node<T>)
        ensures
            r.value is None,
            !r.index.is_set,
            r.prev is None,
            r.next is None,
    {
        Node { value: None, index: NodeIndex::new(), prev: None, next: None }
    }
}

/// The outcome a dequeuer observes.
#[derive(Copy, Clone, PartialEq, PartialOrd, Eq, Ord, Debug, Hash)]
pub enum Dequeue<T> {
    /// The queue held no value at observation time.
    Empty,
    /// A transiently inconsistent state was observed; the caller may retry.
    Spin,
    /// This caller is the unique owner of the extracted value.
    Data(T),
}

impl<T> Dequeue<T> {
    /// Projects the outcome onto its value: `Some` exactly for `Data`.
    pub fn data(self) -> (r: Option<T>)
        ensures
            r == (match self {
                Dequeue::Data(v) => Some(v),
                _ => None::<T>,
            }),
    {
        match self {
            Dequeue::Data(v) => Some(v),
            _ => None,
        }
    }
}

/// The free-list cache of retired nodes: a stack threaded through the
/// nodes' `prev` links, so that a steady load reuses slots instead of
/// growing the arena. `free` records the stacked indices, top first.
struct Cache {
    head: Option<usize>,
    free: Ghost<Seq<usize>>,
}

impl Cache {
    /// The node a stack position refers to.
    spec fn free_node<T>(&self, nodes: Seq<Node<T>>, k: int) -> Node<T> {
        nodes[self.free@[k] as int]
    }

    /// The stack is well formed over the arena: positions are in bounds and
    /// distinct, `head` is the top, the `prev` links chain the stack, and
    /// every cached node is clean (no value, no sequence number, no forward
    /// link), ready for the next producer.
    spec fn wf<T>(&self, nodes: Seq<Node<T>>) -> bool {
        let fr = self.free@;
        &&& forall|k: int| 0 <= k < fr.len() ==> (#[trigger] fr[k]) < nodes.len()
        &&& forall|k1: int, k2: int|
            0 <= k1 < k2 < fr.len() ==> #[trigger] fr[k1] != #[trigger] fr[k2]
        &&& self.head == (if fr.len() == 0 {
            None::<usize>
        } else {
            Some(fr[0])
        })
        &&& forall|k: int|
            0 <= k < fr.len() - 1 ==> (#[trigger] self.free_node(nodes, k)).prev == Some(
                fr[k + 1],
            )
        &&& fr.len() > 0 ==> self.free_node(nodes, fr.len() - 1).prev is None
        &&& forall|k: int|
            0 <= k < fr.len() ==> {
                let n = #[trigger] self.free_node(nodes, k);
                &&& n.value is None
                &&& !n.index.is_set
                &&& n.next is None
            }
    }

    fn new() -> (r: Cache)
        ensures
            r.head is None,
            r.free@ == Seq::<usize>::empty(),
    {
        Cache { head: None, free: Ghost(Seq::empty()) }
    }

    /// Pops the top of the stack, or reports that it is empty.
    fn pop<T>(&mut self, nodes: &Vec<Node<T>>) -> (r: Option<usize>)
        requires
            old(self).wf(nodes@),
        ensures
            final(self).wf(nodes@),
            old(self).free@.len() == 0 ==> r is None && final(self).free@ == old(self).free@,
            old(self).free@.len() > 0 ==> {
                &&& r == Some(old(self).free@[0])
                &&& final(self).free@ == old(self).free@.drop_first()
            },
    {
        match self.head {
            None => None,
            Some(i) => {
                self.head = nodes[i].prev;
                proof {
                    self.free@ = self.free@.drop_first();
                }
                proof {
                    assert forall|k: int| 0 <= k < self.free@.len() implies {
                        let n = #[trigger] self.free_node(nodes@, k);
                        &&& n.prev == (if k < self.free@.len() - 1 {
                            Some(self.free@[k + 1])
                        } else {
                            None::<usize>
                        })
                        &&& n.value is None
                        &&& !n.index.is_set
                        &&& n.next is None
                    } by {
                        assert(self.free_node(nodes@, k) == old(self).free_node(nodes@, k + 1));
                    }
                    assert(old(self).free_node(nodes@, 0) == nodes@[i as int]);
                }
                Some(i)
            },
        }
    }

    /// Takes a clean node for a producer: the top of the stack if one is
    /// cached, a freshly grown arena slot otherwise. Either way the caller
    /// becomes the slot's sole owner: the slot is no longer on the stack.
    fn get<T>(&mut self, nodes: &mut Vec<Node<T>>) -> (i: usize)
        requires
            old(self).wf(old(nodes)@),
        ensures
            final(self).wf(final(nodes)@),
            i < final(nodes)@.len(),
            old(nodes)@.len() <= final(nodes)@.len(),
            forall|j: int| 0 <= j < old(nodes)@.len() ==> final(nodes)@[j] == old(nodes)@[j],
            final(nodes)@[i as int].value is None,
            !final(nodes)@[i as int].index.is_set,
            final(nodes)@[i as int].next is None,
            old(self).free@.len() > 0 ==> {
                &&& i == old(self).free@[0]
                &&& final(self).free@ == old(self).free@.drop_first()
                &&& final(nodes)@ == old(nodes)@
            },
            old(self).free@.len() == 0 ==> {
                &&& i == old(nodes)@.len()
                &&& final(self).free@ == old(self).free@
                &&& final(nodes)@.len() == old(nodes)@.len() + 1
            },
    {
        match self.pop(nodes) {
            Some(i) => {
                proof {
                    assert(old(self).free_node(nodes@, 0) == nodes@[i as int]);
                }
                i
            },
            None => {
                let i = nodes.len();
                nodes.push(Node::new());
                i
            },
        }
    }

    /// Returns a retired node to the stack. The node must already be clean
    /// and must not be on the stack; its `prev` link becomes the stack link.
    fn put<T>(&mut self, nodes: &mut Vec<Node<T>>, i: usize)
        requires
            old(self).wf(old(nodes)@),
            i < old(nodes)@.len(),
            forall|k: int| 0 <= k < old(self).free@.len() ==> (#[trigger] old(self).free@[k]) != i,
            old(nodes)@[i as int].value is None,
            !old(nodes)@[i as int].index.is_set,
            old(nodes)@[i as int].next is None,
        ensures
            final(self).wf(final(nodes)@),
            final(self).free@ == seq![i] + old(self).free@,
            final(nodes)@.len() == old(nodes)@.len(),
            forall|j: int|
                0 <= j < old(nodes)@.len() && j != i ==> final(nodes)@[j] == old(nodes)@[j],
            final(nodes)@[i as int].value is None,
            !final(nodes)@[i as int].index.is_set,
            final(nodes)@[i as int].next is None,
    {
        let h = self.head;
        let node = &mut nodes[i];
        node.prev = h;
        self.head = Some(i);
        proof {
            self.free@ = seq![i] + self.free@;
        }
        proof {
            assert forall|k: int| 0 <= k < self.free@.len() - 1 implies (
            #[trigger] self.free_node(nodes@, k)).prev == Some(self.free@[k + 1]) by {
                if k > 0 {
                    assert(old(self).free_node(old(nodes)@, k - 1) == self.free_node(nodes@, k));
                }
            }
            assert forall|k: int| 0 <= k < self.free@.len() implies {
                let n = #[trigger] self.free_node(nodes@, k);
                &&& n.value is None
                &&& !n.index.is_set
                &&& n.next is None
            } by {
                if k > 0 {
                    assert(old(self).free_node(old(nodes)@, k - 1) == self.free_node(nodes@, k));
                }
            }
        }
    }
}

/// The MPMC FIFO queue. `head` is the insertion frontier (the most recently
/// enqueued node), `tail` the removal frontier (the oldest pending node),
/// `index` the sequence number of the next value to dequeue — equivalently,
/// the wrapping count of values dequeued so far. `chain` records the arena
/// positions of the pending nodes, oldest first.
pub struct Queue<T> {
    nodes: Vec<Node<T>>,
    head: Option<usize>,
    tail: Option<usize>,
    index: usize,
    cache: Cache,
    chain: Ghost<Seq<usize>>,
}

impl<T> View for Queue<T> {
    type V = Seq<T>;

    /// The pending values, oldest first: the value of each chained node.
    closed spec fn view(&self) -> Seq<T> {
        Seq::new(self.chain@.len(), |k: int| self.node_at(k).value->0)
    }
}

impl<T> Queue<T> {
    /// The node at chain position `k` (0 is the tail, the oldest).
    spec fn node_at(&self, k: int) -> Node<T> {
        self.nodes@[self.chain@[k] as int]
    }

    /// The chain is sound over the arena and the cache: positions in bounds,
    /// distinct, disjoint from the free stack (every slot has exactly one
    /// owner), the `next` links chain the pending nodes from tail to head,
    /// and every pending node holds a value and a published sequence number.
    spec fn chain_ok(&self) -> bool {
        let ch = self.chain@;
        &&& forall|k: int| 0 <= k < ch.len() ==> (#[trigger] ch[k]) < self.nodes@.len()
        &&& forall|k1: int, k2: int|
            0 <= k1 < k2 < ch.len() ==> #[trigger] ch[k1] != #[trigger] ch[k2]
        &&& forall|k1: int, k2: int|
            0 <= k1 < ch.len() && 0 <= k2 < self.cache.free@.len() ==> #[trigger] ch[k1]
                != #[trigger] self.cache.free@[k2]
        &&& forall|k: int|
            0 <= k < ch.len() - 1 ==> (#[trigger] self.node_at(k)).next == Some(ch[k + 1])
        &&& ch.len() > 0 ==> self.node_at(ch.len() - 1).next is None
        &&& forall|k: int|
            0 <= k < ch.len() ==> {
                let n = #[trigger] self.node_at(k);
                &&& n.value is Some
                &&& n.index.is_set
            }
    }

    /// The chained sequence numbers count up from `base`: the tail carries
    /// `base`, each successor one more (wrapping).
    spec fn indices_from(&self, base: usize) -> bool {
        forall|k: int|
            0 <= k < self.chain@.len() ==> (#[trigger] self.node_at(k)).index.value
                == seq_index_at(base, k as nat)
    }

    /// Queue well-formedness: the cache and the chain are sound, `tail` and
    /// `head` frame the chain, and the sequence numbers count up from the
    /// queue's own counter — the number of the next value to dequeue.
    pub closed spec fn wf(&self) -> bool {
        let ch = self.chain@;
        &&& self.cache.wf(self.nodes@)
        &&& self.chain_ok()
        &&& self.indices_from(self.index)
        &&& self.tail == (if ch.len() == 0 {
            None::<usize>
        } else {
            Some(ch[0])
        })
        &&& self.head == (if ch.len() == 0 {
            None::<usize>
        } else {
            Some(ch[ch.len() - 1])
        })
    }

    /// How many arena slots the queue has ever allocated.
    pub closed spec fn spec_node_count(&self) -> nat {
        self.nodes@.len()
    }

    /// How many retired nodes stand ready for reuse.
    pub closed spec fn spec_cached(&self) -> nat {
        self.cache.free@.len()
    }

    /// An empty queue that owns no nodes yet.
    pub fn new() -> (q: Queue<T>)
        ensures
            q.wf(),
            q@ == Seq::<T>::empty(),
            q.spec_node_count() == 0,
            q.spec_cached() == 0,
    {
        Queue {
            nodes: Vec::new(),
            head: None,
            tail: None,
            index: 0,
            cache: Cache::new(),
            chain: Ghost(Seq::empty()),
        }
    }

    /// Appends a value at the insertion frontier. Never fails and never
    /// blocks. The producer takes a clean node from the cache (growing the
    /// arena only when the cache is empty — the recycling guarantee), writes
    /// the value, publishes the node at `head`, and gives it the sequence
    /// number one past its predecessor's; the first node of an empty queue
    /// takes the queue's own counter. In the concurrent protocol the
    /// producer may have to walk back over predecessors whose numbers are
    /// still in flight; at quiescence every published number is visible, so
    /// the walk always ends on its first step, at the immediate predecessor.
    pub fn enqueue(&mut self, value: T)
        requires
            old(self).wf(),
        ensures
            final(self).wf(),
            final(self)@ == old(self)@.push(value),
            old(self).spec_cached() > 0 ==> {
                &&& final(self).spec_node_count() == old(self).spec_node_count()
                &&& final(self).spec_cached() == old(self).spec_cached() - 1
            },
            old(self).spec_cached() == 0 ==> {
                &&& final(self).spec_node_count() == old(self).spec_node_count() + 1
                &&& final(self).spec_cached() == 0
            },
    {
        let node_id = self.cache.get(&mut self.nodes);
        let ghost mid_nodes = self.nodes@;
        let head = self.head;
        {
            let node = &mut self.nodes[node_id];
            node.value = Some(value);
            node.prev = head;
        }
        self.head = Some(node_id);
        match head {
            Some(h) => {
                proof {
                    let last = old(self).chain@.len() - 1;
                    assert(old(self).node_at(last).index.is_set);
                    assert(self.nodes@[h as int] == old(self).nodes@[h as int]);
                }
                match self.nodes[h].index.get() {
                    Some(i) => {
                        let node = &mut self.nodes[node_id];
                        node.index.set(i.wrapping_add(1));
                    },
                    None => {
                        // dead at quiescence: the predecessor's number is
                        // always published before its producer returns
                        proof {
                            assert(false);
                        }
                    },
                }
                let pred = &mut self.nodes[h];
                pred.next = Some(node_id);
            },
            None => {
                let idx = self.index;
                let node = &mut self.nodes[node_id];
                node.index.set(idx);
                self.tail = Some(node_id);
            },
        }
        proof {
            let ch0 = old(self).chain@;
            self.chain@ = ch0.push(node_id);
            let ch = self.chain@;
            // the cached nodes are untouched: they are neither the new node
            // nor the old head, the only slots written since the take
            assert forall|k: int| 0 <= k < self.cache.free@.len() implies (
            #[trigger] self.cache.free_node(self.nodes@, k)) == self.cache.free_node(
                mid_nodes,
                k,
            ) by {
                let f = self.cache.free@[k];
                assert(f == old(self).cache.free@[k + 1]);
                assert(f != node_id);
                if ch0.len() > 0 {
                    assert(ch0[ch0.len() - 1] != old(self).cache.free@[k + 1]);
                }
            }
            assert(self.cache.wf(self.nodes@));
            assert forall|k: int| 0 <= k < ch0.len() implies #[trigger] self.node_at(k)
                == if k == ch0.len() - 1 {
                (Node {
                    next: Some(node_id),
                    ..old(self).node_at(k)
                })
            } else {
                old(self).node_at(k)
            } by {
                assert(old(self).node_at(k) == old(self).nodes@[ch0[k] as int]);
            }
            assert(self.node_at(ch.len() - 1) == self.nodes@[node_id as int]);
            assert forall|k: int| 0 <= k < ch.len() implies {
                let n = #[trigger] self.node_at(k);
                &&& n.value is Some
                &&& n.index.is_set
                &&& n.index.value == seq_index_at(self.index, k as nat)
            } by {
                if k == ch.len() - 1 && ch0.len() > 0 {
                    assert(old(self).node_at(ch0.len() - 1).index.value == seq_index_at(
                        self.index,
                        (ch0.len() - 1) as nat,
                    ));
                }
            }
            assert forall|k1: int, k2: int|
                0 <= k1 < ch.len() && 0 <= k2 < self.cache.free@.len() implies #[trigger] ch[k1]
                != #[trigger] self.cache.free@[k2] by {
                if old(self).cache.free@.len() > 0 {
                    assert(self.cache.free@[k2] == old(self).cache.free@[k2 + 1]);
                }
            }
            assert(self@ =~= old(self)@.push(value));
        }
    }

    /// Publishes `next` as the new tail after a claim, extracts the claimed
    /// value, and retires the node to the cache. Called with the claim
    /// already made: the queue's counter has advanced past `index`, the
    /// claimed sequence number, and if the node was the sole one the head
    /// has already been swung off it. In the concurrent protocol the tail
    /// swing is a compare-and-swap loop that stops when another consumer is
    /// seen to have advanced the tail already; with exclusive access it
    /// succeeds at once.
    fn set_tail(&mut self, node_id: usize, next: Option<usize>, index: usize) -> (value: T)
        requires
            old(self).cache.wf(old(self).nodes@),
            old(self).chain_ok(),
            old(self).chain@.len() > 0,
            old(self).indices_from(index),
            old(self).index == vstd::wrapping::usize_specs::wrapping_add(index, 1),
            node_id == old(self).chain@[0],
            next == (if old(self).chain@.len() > 1 {
                Some(old(self).chain@[1])
            } else {
                None::<usize>
            }),
            old(self).tail == Some(node_id),
            old(self).head == (if old(self).chain@.len() == 1 {
                None::<usize>
            } else {
                Some(old(self).chain@[old(self).chain@.len() - 1])
            }),
        ensures
            final(self).wf(),
            final(self)@ == old(self)@.drop_first(),
            value == old(self)@[0],
            final(self).index == old(self).index,
            final(self).spec_node_count() == old(self).spec_node_count(),
            final(self).spec_cached() == old(self).spec_cached() + 1,
    {
        self.tail = next;
        let node = &mut self.nodes[node_id];
        let taken = node.value.take();
        node.index.unset();
        node.next = None;
        let ghost mid_nodes = self.nodes@;
        proof {
            assert forall|k: int|
                0 <= k < old(self).cache.free@.len() implies #[trigger] old(self).cache.free@[k]
                != node_id by {}
            // the cached nodes are untouched: only the retired node was
            // cleaned, and it is not on the stack
            assert forall|k: int| 0 <= k < self.cache.free@.len() implies (
            #[trigger] self.cache.free_node(self.nodes@, k)) == old(self).cache.free_node(
                old(self).nodes@,
                k,
            ) by {}
            assert(self.cache.wf(self.nodes@));
        }
        self.cache.put(&mut self.nodes, node_id);
        proof {
            let ch0 = old(self).chain@;
            self.chain@ = ch0.drop_first();
            let ch = self.chain@;
            // the remaining chained nodes are untouched: only the retired
            // node was cleaned and relinked
            assert forall|k: int| 0 <= k < ch.len() implies #[trigger] self.node_at(k) == old(
                self,
            ).node_at(k + 1) by {
                assert(ch[k] == ch0[k + 1]);
                assert(ch0[k + 1] != node_id);
            }
            // every remaining number still counts up from the advanced
            // counter: dropping the claimed tail and bumping the counter
            // shift together
            assert forall|k: int| 0 <= k < ch.len() implies (
            #[trigger] self.node_at(k)).index.value == seq_index_at(self.index, k as nat) by {
                lemma_seq_index_shift(index, k as nat);
                assert(old(self).node_at(k + 1).index.value == seq_index_at(
                    index,
                    (k + 1) as nat,
                ));
            }
            assert forall|k1: int, k2: int|
                0 <= k1 < ch.len() && 0 <= k2 < self.cache.free@.len() implies #[trigger] ch[k1]
                != #[trigger] self.cache.free@[k2] by {
                assert(self.cache.free@ == seq![node_id] + old(self).cache.free@);
                assert(ch[k1] == ch0[k1 + 1]);
                if k2 > 0 {
                    assert(self.cache.free@[k2] == old(self).cache.free@[k2 - 1]);
                }
            }
            assert(self@ =~= old(self)@.drop_first());
            assert(old(self)@[0] == old(self).node_at(0).value->0);
        }
        taken.unwrap()
    }

    /// Removes the oldest value, with a spin budget for each point where a
    /// concurrent caller might have to wait out a transient state. `Empty`
    /// means the queue held no value at observation time; `Data(v)` makes
    /// the caller the value's unique owner, in FIFO order with every other
    /// `Data` outcome. With exclusive access no transient state is ever
    /// observed, so `Spin` — the retry signal those states produce under
    /// contention — is never returned and the budget is never consumed.
    #[allow(unused_variables)]
    pub fn dequeue_spin(&mut self, spin: usize) -> (r: Dequeue<T>)
        requires
            old(self).wf(),
        ensures
            final(self).wf(),
            old(self)@.len() == 0 ==> {
                &&& r == Dequeue::<T>::Empty
                &&& final(self)@ == old(self)@
                &&& final(self).spec_node_count() == old(self).spec_node_count()
                &&& final(self).spec_cached() == old(self).spec_cached()
            },
            old(self)@.len() > 0 ==> {
                &&& r == Dequeue::Data(old(self)@[0])
                &&& final(self)@ == old(self)@.drop_first()
                &&& final(self).spec_node_count() == old(self).spec_node_count()
                &&& final(self).spec_cached() == old(self).spec_cached() + 1
            },
    {
        let index = self.index;
        let tail = self.tail;
        match tail {
            None => Dequeue::Empty,
            Some(t) => {
                // the tail's sequence number: published before its producer
                // returned, so the spin budget is never consumed here
                let tail_index = match self.nodes[t].index.get() {
                    Some(i) => i,
                    None => {
                        return Dequeue::Spin;
                    },
                };
                let head = self.head;
                let next = self.nodes[t].next;
                let sole = match head {
                    Some(h) => h == t,
                    None => false,
                };
                if next.is_none() && !sole {
                    // dead at quiescence: a swung head always has its
                    // forward link published
                    return Dequeue::Spin;
                }
                proof {
                    if old(self).chain@.len() > 1 {
                        assert(old(self).chain@[0] != old(self).chain@[
                        old(self).chain@.len() - 1]);
                    }
                }
                if index == tail_index {
                    // claim the slot: with exclusive access the counter's
                    // compare-and-swap always succeeds
                    self.index = index.wrapping_add(1);
                    if sole {
                        // the sole node: swing the head off it; this cannot
                        // lose to a concurrent enqueue here, so the
                        // protocol's claim-rollback path is never taken
                        self.head = None;
                    }
                    proof {
                        assert forall|k: int|
                            0 <= k < self.chain@.len() implies #[trigger] self.node_at(k) == old(
                            self,
                        ).node_at(k) by {}
                        assert(self.chain_ok());
                        assert(self.indices_from(index));
                    }
                    Dequeue::Data(self.set_tail(t, next, index))
                } else {
                    // dead at quiescence: the tail always carries the
                    // counter's own number
                    Dequeue::Spin
                }
            },
        }
    }

    /// Removes the oldest value without any spin budget.
    pub fn dequeue(&mut self) -> (r: Dequeue<T>)
        requires
            old(self).wf(),
        ensures
            final(self).wf(),
            old(self)@.len() == 0 ==> {
                &&& r == Dequeue::<T>::Empty
                &&& final(self)@ == old(self)@
                &&& final(self).spec_node_count() == old(self).spec_node_count()
                &&& final(self).spec_cached() == old(self).spec_cached()
            },
            old(self)@.len() > 0 ==> {
                &&& r == Dequeue::Data(old(self)@[0])
                &&& final(self)@ == old(self)@.drop_first()
                &&& final(self).spec_node_count() == old(self).spec_node_count()
                &&& final(self).spec_cached() == old(self).spec_cached() + 1
            },
    {
        self.dequeue_spin(0)
    }

    /// How many arena slots the queue has allocated in its lifetime; a
    /// steady load keeps this at the peak number of simultaneously pending
    /// values, because every retired node is reused.
    pub fn node_count(&self) -> (n: usize)
        ensures
            n == self.spec_node_count(),
    {
        self.nodes.len()
    }
}

/// The dequeued values are a prefix of the enqueued values, and nothing is
/// duplicated or lost: after any number `k` of dequeues from a queue whose
/// pending values were `s` (oldest first), the values handed out are exactly
/// `s.take(k)` — the `k` oldest, in enqueue order, each exactly once — and
/// the values still pending are exactly `s.skip(k)`; together they are `s`.
/// Here `k` dequeues turn a view `s` into `s.skip(k)` and hand out
/// `s.take(k)` by `dequeue_spin`'s postcondition, applied `k` times.
pub proof fn lemma_no_duplication_no_loss<T>(s: Seq<T>, k: int)
    requires
        0 <= k <= s.len(),
    ensures
        s.take(k) + s.skip(k) == s,
        s.take(k).len() + s.skip(k).len() == s.len(),
{
    assert(s.take(k) + s.skip(k) =~= s);
}

/// FIFO with respect to enqueue order: the `k`-th dequeue returns the `k`-th
/// enqueued value. After `k` dequeues the view is `s.skip(k)`, and the next
/// dequeue returns its head; so values enqueued earlier are returned by
/// strictly earlier dequeues.
pub proof fn lemma_fifo<T>(s: Seq<T>, k: int)
    requires
        0 <= k < s.len(),
    ensures
        s.skip(k)[0] == s[k],
        s.take(k + 1).last() == s[k],
{
}

/// Progress under repeated dequeues: as long as an enqueued value has not
/// been handed out, the queue is non-empty, so by `dequeue_spin`'s
/// postcondition the next dequeue returns `Data` — never `Empty` and never
/// the `Spin` retry signal — and hands out exactly the oldest pending
/// value. A consumer that keeps dequeuing therefore receives every
/// enqueued value after finitely many calls, each exactly once.
pub proof fn lemma_progress<T>(s: Seq<T>, k: int)
    requires
        0 <= k < s.len(),
    ensures
        s.skip(k).len() > 0,
        s.skip(k)[0] == s[k],
        s.skip(k).drop_first() == s.skip(k + 1),
{
    assert(s.skip(k).drop_first() =~= s.skip(k + 1));
}

/// An enqueue never reorders the pending values: the oldest value and the
/// relative order of everything pending are the same before and after, so a
/// value enqueued strictly earlier is dequeued strictly earlier whatever is
/// appended in between.
pub proof fn lemma_enqueue_preserves_order<T>(s: Seq<T>, v: T)
    requires
        s.len() > 0,
    ensures
        s.push(v)[0] == s[0],
        s.push(v).drop_first() == s.drop_first().push(v),
{
    assert(s.push(v).drop_first() =~= s.drop_first().push(v));
}

} // verus!
