//! A stack of values over two intrusive stacks: the nodes that hold the
//! values, and the empty nodes that wait to be used again.

use crate::atomic::{next_tag, TaggedPtr, ADDR_SPAN};
use crate::heap::Heap;
use crate::lockfree::intrusivestack::{
    lemma_chain_kept, lemma_cons_contains, lemma_rest_contains, IntrusiveStack,
};
use crate::lockfree::model::{free_after, stack_after, stack_out, Op};
use crate::lockfree::node::Node;
use crate::lockfree::shared::share;
use std::sync::Arc;
use std::sync::Mutex;
use vstd::prelude::*;

verus! {

/// A stack of values, with a freelist of the nodes that hold none.
pub struct Stack<T: Clone> {
    heap: Heap<Node<T>>,
    free: IntrusiveStack<T>,
    stack: IntrusiveStack<T>,
}

impl<T: Clone> Stack<T> {
    /// The values on the stack in the order in which they were pushed: the
    /// top is the last.
    pub closed spec fn view(&self) -> Seq<T> {
        Seq::new(
            self.stack@.len(),
            |i: int| self.heap@[self.stack@[self.stack@.len() - 1 - i]].value->Some_0,
        )
    }

    /// How many empty nodes wait on the freelist.
    pub closed spec fn free_count(&self) -> nat {
        self.free@.len()
    }

    /// How many nodes the stack owns, empty ones and others.
    pub closed spec fn nodes(&self) -> nat {
        self.heap.live()
    }

    /// The tag in the head cell of the list of values.
    pub closed spec fn head_tag(&self) -> u16 {
        self.stack.head_tag()
    }

    /// Each node is on exactly one of the two lists; the nodes on the
    /// freelist are empty and the others hold a value.
    pub closed spec fn wf(&self) -> bool {
        &&& self.heap.wf()
        &&& self.heap.live() == self.free@.len() + self.stack@.len()
        &&& self.free.wf(&self.heap)
        &&& self.stack.wf(&self.heap)
        &&& forall|a: u64| #[trigger]
            self.heap@.contains_key(a) ==> (self.free@.contains(a) != self.stack@.contains(a))
        &&& forall|a: u64| #[trigger] self.free@.contains(a) ==> self.heap@[a].value is None
        &&& forall|a: u64| #[trigger] self.stack@.contains(a) ==> self.heap@[a].value is Some
    }

    /// The nodes of the stack are those that hold its values and those on its
    /// freelist, and there are fewer of them than addresses.
    pub proof fn lemma_nodes_accounted(&self)
        requires
            self.wf(),
        ensures
            self.nodes() == self@.len() + self.free_count(),
            self.nodes() < ADDR_SPAN,
    {
        self.heap.lemma_addresses_bounded();
    }

    /// The empty stack, with `initial_capacity` nodes on its freelist.
    pub fn new(initial_capacity: usize) -> (r: Stack<T>)
        requires
            initial_capacity < ADDR_SPAN,
        ensures
            r.wf(),
            r@ == Seq::<T>::empty(),
            r.free_count() == initial_capacity,
            r.nodes() == initial_capacity,
            r.head_tag() == 0,
    {
        let mut stack: Stack<T> = Stack {
            heap: Heap::new(),
            free: IntrusiveStack::new(),
            stack: IntrusiveStack::new(),
        };
        assert(stack.wf());
        assert(stack@ =~= Seq::<T>::empty());
        stack.extend(initial_capacity);
        stack
    }

    /// A new empty node in `heap`.
    fn new_free_node(heap: &mut Heap<Node<T>>) -> (r: TaggedPtr)
        requires
            old(heap).wf(),
            old(heap).live() + 1 < ADDR_SPAN,
        ensures
            final(heap).wf(),
            r.addr() != 0,
            !old(heap)@.contains_key(r.addr()),
            final(heap).live() == old(heap).live() + 1,
            final(heap)@.dom() == old(heap)@.dom().insert(r.addr()),
            forall|a: u64| old(heap)@.contains_key(a) ==> final(heap)@[a] == old(heap)@[a],
            final(heap)@[r.addr()].value is None,
    {
        let n: Box<Node<T>> = Box::new(Node { value: None, next: TaggedPtr::nil() });
        TaggedPtr::from_box(n, heap)
    }

    /// Whether the stack holds no value.
    pub fn is_empty(&self) -> (r: bool)
        requires
            self.wf(),
        ensures
            r == (self@.len() == 0),
    {
        self.stack.is_empty(&self.heap)
    }

    /// How many nodes the stack owns, empty ones and others.
    pub fn node_count(&self) -> (n: usize)
        ensures
            n == self.nodes(),
    {
        self.heap.len()
    }

    /// Puts `value` on top, in a node from the freelist or, where that is
    /// empty, in a new one.
    pub fn push(&mut self, value: T)
        requires
            old(self).wf(),
            old(self).free_count() > 0 || old(self).nodes() + 1 < ADDR_SPAN,
        ensures
            final(self).wf(),
            final(self)@ == stack_after(old(self)@, Op::Push(value)),
            final(self).free_count() == free_after(
                old(self)@.len(),
                old(self).free_count(),
                Op::Push(value),
            ),
            final(self).nodes() == old(self).nodes() + (if old(self).free_count() > 0 {
                0nat
            } else {
                1nat
            }),
            final(self).nodes() == final(self)@.len() + final(self).free_count(),
            final(self).head_tag() == next_tag(old(self).head_tag()),
    {
        let ghost free0 = self.free@;
        let ghost live0 = self.stack@;
        let ghost heap0 = self.heap@;
        let node = match self.free.pop(&self.heap) {
            Some(n) => {
                proof {
                    lemma_rest_contains(heap0, free0[0], free0);
                    assert(free0.contains(free0[0]));
                }
                n
            },
            None => {
                let n = Stack::<T>::new_free_node(&mut self.heap);
                proof {
                    assert(self.free@ =~= Seq::<u64>::empty());
                    lemma_chain_kept(heap0, self.heap@, self.stack.head_addr(), live0);
                }
                n
            },
        };
        let addr: u64 = node.get();
        let ghost free1 = self.free@;
        let ghost heap1 = self.heap@;
        assert(!free1.contains(addr) && !live0.contains(addr));
        assert(heap1.contains_key(addr));
        assert(heap1[addr].value is None);
        self.heap.get_mut(addr).value = Some(value);
        let ghost heap2 = self.heap@;
        proof {
            lemma_chain_kept(heap1, heap2, self.stack.head_addr(), live0);
        }
        self.stack.push(&mut self.heap, node);
        proof {
            let heap3 = self.heap@;
            lemma_chain_kept(heap1, heap3, self.free.head_addr(), free1);
            lemma_cons_contains(live0, addr);
            let live3 = self.stack@;
            assert forall|a: u64| #[trigger] live3.contains(a) implies heap3[a].value is Some by {
                if a != addr {
                    assert(live0.contains(a));
                }
            }
            assert forall|a: u64| #[trigger] free1.contains(a) implies heap3[a].value is None by {
                assert(free0.contains(a));
            }
            assert forall|a: u64| #[trigger] heap3.contains_key(a) implies (free1.contains(a)
                != live3.contains(a)) by {
                if a != addr {
                    assert(heap0.contains_key(a));
                }
            }
            let n = live0.len() as int;
            assert forall|i: int| 0 <= i < n + 1 implies self@[i] == old(self)@.push(value)[i] by {
                if i < n {
                    assert(live3[n - i] == live0[n - 1 - i]);
                    assert(live0.contains(live0[n - 1 - i]));
                }
            }
            assert(self@ =~= old(self)@.push(value));
        }
    }

    /// Takes the top value off and puts its node on the freelist; `None`
    /// from the empty stack.
    pub fn pop(&mut self) -> (r: Option<T>)
        requires
            old(self).wf(),
        ensures
            final(self).wf(),
            r == stack_out(old(self)@, Op::Pop),
            final(self)@ == stack_after(old(self)@, Op::Pop),
            final(self).free_count() == free_after(
                old(self)@.len(),
                old(self).free_count(),
                Op::<T>::Pop,
            ),
            final(self).nodes() == old(self).nodes(),
            final(self).head_tag() == (if old(self)@.len() > 0 {
                next_tag(old(self).head_tag())
            } else {
                old(self).head_tag()
            }),
    {
        let ghost free0 = self.free@;
        let ghost live0 = self.stack@;
        let ghost heap0 = self.heap@;
        match self.stack.pop(&self.heap) {
            Some(ptr) => {
                let addr: u64 = ptr.get();
                proof {
                    lemma_rest_contains(heap0, live0[0], live0);
                    assert(live0.contains(live0[0]));
                }
                let ghost live1 = self.stack@;
                let value = self.heap.get_mut(addr).value.take();
                let ghost heap1 = self.heap@;
                proof {
                    lemma_chain_kept(heap0, heap1, self.stack.head_addr(), live1);
                    lemma_chain_kept(heap0, heap1, self.free.head_addr(), free0);
                }
                self.free.push(&mut self.heap, ptr);
                proof {
                    let heap2 = self.heap@;
                    let free2 = self.free@;
                    lemma_chain_kept(heap1, heap2, self.stack.head_addr(), live1);
                    lemma_cons_contains(free0, addr);
                    assert forall|a: u64| #[trigger] free2.contains(a) implies heap2[a].value
                        is None by {
                        if a != addr {
                            assert(free0.contains(a));
                        }
                    }
                    assert forall|a: u64| #[trigger] live1.contains(a) implies heap2[a].value
                        is Some by {
                        assert(live0.contains(a));
                    }
                    assert forall|a: u64| #[trigger] heap2.contains_key(a) implies (free2.contains(
                        a,
                    ) != live1.contains(a)) by {
                        assert(heap0.contains_key(a));
                    }
                    let n = live0.len() as int;
                    assert forall|i: int| 0 <= i < n - 1 implies self@[i] == old(
                        self,
                    )@.drop_last()[i] by {
                        assert(live1[n - 2 - i] == live0[n - 1 - i]);
                        assert(live1.contains(live1[n - 2 - i]));
                    }
                    assert(self@ =~= old(self)@.drop_last());
                    assert(value == Some(old(self)@.last()));
                }
                value
            },
            None => {
                assert(self@ =~= old(self)@);
                None
            },
        }
    }

    /// Gives the nodes that wait on the freelist back to the allocator.
    pub fn compact(&mut self)
        requires
            old(self).wf(),
        ensures
            final(self).wf(),
            final(self)@ == old(self)@,
            final(self).free_count() == 0,
            final(self).nodes() == old(self).nodes() - old(self).free_count(),
            final(self).head_tag() == old(self).head_tag(),
    {
        while !self.free.is_empty(&self.heap)
            invariant
                self.wf(),
                self@ == old(self)@,
                self.nodes() - self.free_count() == old(self).nodes() - old(self).free_count(),
                self.head_tag() == old(self).head_tag(),
            decreases self.free@.len(),
        {
            let ghost free0 = self.free@;
            let ghost live0 = self.stack@;
            let ghost heap0 = self.heap@;
            let ghost view0 = self@;
            let popped = self.free.pop(&self.heap);
            let mut ptr: TaggedPtr = popped.unwrap();
            let ghost addr = ptr.addr();
            proof {
                lemma_rest_contains(heap0, free0[0], free0);
                assert(free0.contains(free0[0]));
            }
            let _ = ptr.to_box(&mut self.heap);
            proof {
                let heap1 = self.heap@;
                let free1 = self.free@;
                lemma_chain_kept(heap0, heap1, self.stack.head_addr(), live0);
                lemma_chain_kept(heap0, heap1, self.free.head_addr(), free1);
                assert forall|a: u64| #[trigger] heap1.contains_key(a) implies (free1.contains(a)
                    != live0.contains(a)) by {
                    assert(heap0.contains_key(a));
                }
                assert forall|i: int| 0 <= i < live0.len() implies self@[i] == view0[i] by {
                    assert(live0.contains(live0[live0.len() - 1 - i]));
                }
                assert(self@ =~= view0);
            }
        }
    }

    /// Puts `count` new empty nodes on the freelist.
    pub fn extend(&mut self, count: usize)
        requires
            old(self).wf(),
            old(self).nodes() + count < ADDR_SPAN,
        ensures
            final(self).wf(),
            final(self)@ == old(self)@,
            final(self).free_count() == old(self).free_count() + count,
            final(self).nodes() == old(self).nodes() + count,
            final(self).head_tag() == old(self).head_tag(),
    {
        let mut done: usize = 0;
        while done < count
            invariant
                done <= count,
                old(self).nodes() + count < ADDR_SPAN,
                self.wf(),
                self@ == old(self)@,
                self.free_count() == old(self).free_count() + done,
                self.nodes() == old(self).nodes() + done,
                self.head_tag() == old(self).head_tag(),
            decreases count - done,
        {
            let ghost free0 = self.free@;
            let ghost live0 = self.stack@;
            let ghost heap0 = self.heap@;
            let ghost view0 = self@;
            let node = Stack::<T>::new_free_node(&mut self.heap);
            let ghost addr = node.addr();
            let ghost heap1 = self.heap@;
            proof {
                lemma_chain_kept(heap0, heap1, self.free.head_addr(), free0);
                assert(!free0.contains(addr));
            }
            self.free.push(&mut self.heap, node);
            proof {
                let heap2 = self.heap@;
                let free2 = self.free@;
                lemma_chain_kept(heap0, heap2, self.stack.head_addr(), live0);
                lemma_cons_contains(free0, addr);
                assert forall|a: u64| #[trigger] free2.contains(a) implies heap2[a].value
                    is None by {
                    if a != addr {
                        assert(free0.contains(a));
                    }
                }
                assert forall|a: u64| #[trigger] live0.contains(a) implies heap2[a].value
                    is Some by {
                    assert(heap0.contains_key(a));
                }
                assert forall|a: u64| #[trigger] heap2.contains_key(a) implies (free2.contains(a)
                    != live0.contains(a)) by {
                    if a != addr {
                        assert(heap0.contains_key(a));
                    }
                }
                assert forall|i: int| 0 <= i < live0.len() implies self@[i] == view0[i] by {
                    assert(live0.contains(live0[live0.len() - 1 - i]));
                }
                assert(self@ =~= view0);
            }
            done = done + 1;
        }
    }
}

/// A handle for pushing onto a stack that several threads share: an owner of
/// the lock that guards it.
#[verifier::reject_recursive_types(T)]
pub struct StackProducer<T: Clone> {
    stack: Arc<Mutex<Stack<T>>>,
}

/// A handle for popping off a stack that several threads share: an owner of
/// the lock that guards it.
#[verifier::reject_recursive_types(T)]
pub struct StackConsumer<T: Clone> {
    stack: Arc<Mutex<Stack<T>>>,
}

impl<T: Clone> StackProducer<T> {
    /// The lock on the stack that this handle pushes onto.
    pub closed spec fn target(&self) -> Mutex<Stack<T>> {
        *self.stack
    }

    /// A handle on the stack that `stack` guards.
    pub fn new(stack: &Arc<Mutex<Stack<T>>>) -> (r: StackProducer<T>)
        ensures
            r.target() == **stack,
    {
        StackProducer { stack: share(stack) }
    }

    /// The lock on the stack that this handle pushes onto.
    pub fn stack(&self) -> (r: &Arc<Mutex<Stack<T>>>)
        ensures
            **r == self.target(),
    {
        &self.stack
    }
}

impl<T: Clone> Clone for StackProducer<T> {
    /// A second handle on the same stack.
    fn clone(&self) -> (r: Self)
        ensures
            r.target() == self.target(),
    {
        StackProducer { stack: share(&self.stack) }
    }
}

impl<T: Clone> StackConsumer<T> {
    /// The lock on the stack that this handle pops off.
    pub closed spec fn target(&self) -> Mutex<Stack<T>> {
        *self.stack
    }

    /// A handle on the stack that `stack` guards.
    pub fn new(stack: &Arc<Mutex<Stack<T>>>) -> (r: StackConsumer<T>)
        ensures
            r.target() == **stack,
    {
        StackConsumer { stack: share(stack) }
    }

    /// The lock on the stack that this handle pops off.
    pub fn stack(&self) -> (r: &Arc<Mutex<Stack<T>>>)
        ensures
            **r == self.target(),
    {
        &self.stack
    }
}

impl<T: Clone> Clone for StackConsumer<T> {
    /// A second handle on the same stack.
    fn clone(&self) -> (r: Self)
        ensures
            r.target() == self.target(),
    {
        StackConsumer { stack: share(&self.stack) }
    }
}

} // verus!
