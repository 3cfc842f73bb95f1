//! A Michael-Scott queue: a chain of nodes from a sentinel at the head to the
//! last element, a tail cell that follows the end of the chain, and a stack of
//! retired nodes that are used again.

use crate::atomic::{
    advance_tag, lemma_advance_tag, lemma_pack_parts, lemma_word_parts, next_tag, pack, word_addr,
    word_tag, TaggedPtr, ADDR_SPAN,
};
use crate::heap::Heap;
use crate::lockfree::intrusivestack::{is_chain, lemma_chain_frame, link_at};
use crate::lockfree::model::{clone_keeps, free_after, queue_after, queue_out, Op};
use crate::lockfree::node::Node;
use crate::lockfree::shared::share;
use crate::lockfree::stack::Stack;
use std::sync::Arc;
use std::sync::Mutex;
use vstd::prelude::*;

verus! {

/// A queue of values, with a freelist of the nodes that were retired.
pub struct Queue<T: Clone> {
    heap: Heap<Node<T>>,
    free: Stack<TaggedPtr>,
    head: TaggedPtr,
    tail: TaggedPtr,
    chain: Ghost<Seq<u64>>,
    tail_at: Ghost<int>,
}

impl<T: Clone> Queue<T> {
    /// The values in the queue, the oldest first.
    pub closed spec fn view(&self) -> Seq<T> {
        Seq::new(
            (self.chain@.len() - 1) as nat,
            |i: int| self.heap@[self.chain@[i + 1]].value->Some_0,
        )
    }

    /// How many retired nodes wait to be used again.
    pub closed spec fn recycled(&self) -> nat {
        self.free@.len()
    }

    /// How many more retired nodes the freelist takes before it allocates.
    pub closed spec fn spare(&self) -> nat {
        self.free.free_count()
    }

    /// How many nodes the queue owns: the sentinel, those that hold the
    /// values, and the retired ones.
    pub closed spec fn nodes(&self) -> nat {
        self.heap.live()
    }

    /// The addresses of the nodes that the links lead through: the sentinel
    /// first, then the nodes that hold the values, the oldest first.
    pub closed spec fn addresses(&self) -> Seq<u64> {
        self.chain@
    }

    /// The words in the links of those nodes, in the same order.
    pub closed spec fn links(&self) -> Seq<u64> {
        Seq::new(self.chain@.len(), |i: int| self.heap@[self.chain@[i]].next.word())
    }

    /// The word in the head cell.
    pub closed spec fn head_word(&self) -> u64 {
        self.head.word()
    }

    /// The word in the tail cell.
    pub closed spec fn tail_word(&self) -> u64 {
        self.tail.word()
    }

    /// The tag in the head cell.
    pub open spec fn head_tag(&self) -> u16 {
        word_tag(self.head_word())
    }

    /// The tag in the tail cell.
    pub open spec fn tail_tag(&self) -> u16 {
        word_tag(self.tail_word())
    }

    /// How many links lie between the node that the tail cell refers to and
    /// the last node.
    pub closed spec fn tail_lag(&self) -> nat {
        (self.chain@.len() - 1 - self.tail_at@) as nat
    }

    /// The state of the queue while `in_transit` nodes are neither in the
    /// chain nor retired.
    #[verifier::opaque]
    spec fn shape(&self, in_transit: nat) -> bool {
        let chain = self.chain@;
        let retired = self.free@;
        &&& self.heap.wf()
        &&& self.free.wf()
        &&& chain.len() >= 1
        &&& is_chain(self.heap@, self.head.addr(), chain)
        &&& 0 <= self.tail_at@ < chain.len()
        &&& self.tail.addr() == chain[self.tail_at@]
        &&& self.tail.tag() == advance_tag(self.head.tag(), self.tail_at@ as nat)
        &&& forall|i: int| 1 <= i < chain.len() ==> self.heap@[#[trigger] chain[i]].value is Some
        &&& forall|i: int|
            0 <= i < retired.len() ==> {
                &&& self.heap@.contains_key((#[trigger] retired[i]).addr())
                &&& !chain.contains(retired[i].addr())
                &&& self.heap@[retired[i].addr()].value is None
            }
        &&& forall|i: int, j: int|
            0 <= i < j < retired.len() ==> (#[trigger] retired[i]).addr() != (
            #[trigger] retired[j]).addr()
        &&& self.heap.live() == chain.len() + retired.len() + in_transit
    }

    /// The node at `addr` is neither in the chain nor retired.
    spec fn loose(&self, addr: u64) -> bool {
        &&& self.heap@.contains_key(addr)
        &&& !self.chain@.contains(addr)
        &&& forall|i: int| 0 <= i < self.free@.len() ==> (#[trigger] self.free@[i]).addr() != addr
    }

    /// What the shape says of the nodes that the head and the tail cell
    /// refer to.
    proof fn lemma_shape_facts(&self, in_transit: nat)
        requires
            self.shape(in_transit),
        ensures
            self.heap.wf(),
            self.free.wf(),
            self.chain@.len() >= 1,
            0 <= self.tail_at@ < self.chain@.len(),
            self.head.addr() == self.chain@[0],
            self.tail.addr() == self.chain@[self.tail_at@],
            self.heap@.contains_key(self.head.addr()),
            self.heap@.contains_key(self.tail.addr()),
            self.heap@[self.head.addr()].next.addr() == (if self.chain@.len() > 1 {
                self.chain@[1]
            } else {
                0
            }),
            self.heap@[self.tail.addr()].next.addr() == (if self.tail_at@ + 1 < self.chain@.len() {
                self.chain@[self.tail_at@ + 1]
            } else {
                0
            }),
            self.tail_at@ + 1 < self.chain@.len() ==> self.chain@[self.tail_at@ + 1] != 0,
            self.chain@.len() > 1 ==> self.chain@[1] != 0 && self.heap@.contains_key(
                self.chain@[1],
            ) && self.heap@[self.chain@[1]].value is Some,
            self.tail.tag() == advance_tag(self.head.tag(), self.tail_at@ as nat),
            (self.head == self.tail) <==> self.tail_at@ == 0,
            forall|i: int| 0 <= i < self.chain@.len() ==> 0 < #[trigger] self.chain@[i] < ADDR_SPAN,
            self.heap.live() == self.chain@.len() + self.free@.len() + in_transit,
            self.heap.live() < ADDR_SPAN,
    {
        reveal(Queue::shape);
        self.heap.lemma_addresses_bounded();
        let chain = self.chain@;
        let k = self.tail_at@;
        assert(chain[0] != 0);
        assert(chain[k] != 0);
        assert(link_at(self.heap@, chain, 0));
        assert(link_at(self.heap@, chain, k));
        if k + 1 < chain.len() {
            assert(chain[k + 1] != 0);
        }
        if chain.len() > 1 {
            assert(chain[1] != 0);
        }
        if k == 0 {
            lemma_advance_tag(self.head.tag(), 0, 0);
            self.head.lemma_parts_decide(&self.tail);
        }
    }

    /// Taking the top of the freelist sets one retired node loose.
    proof fn lemma_recycle(pre: Queue<T>, post: Queue<T>)
        requires
            pre.shape(0),
            pre.free@.len() > 0,
            post.free.wf(),
            post.free@ == pre.free@.drop_last(),
            post.heap == pre.heap,
            post.head == pre.head,
            post.tail == pre.tail,
            post.chain@ == pre.chain@,
            post.tail_at@ == pre.tail_at@,
        ensures
            post.shape(1),
            post.loose(pre.free@.last().addr()),
            pre.heap@[pre.free@.last().addr()].value is None,
            post@ == pre@,
            post.links() == pre.links(),
            post.addresses() == pre.addresses(),
    {
        reveal(Queue::shape);
        let before = pre.free@;
        let after = post.free@;
        let last = before.len() - 1;
        assert forall|i: int| 0 <= i < after.len() implies (#[trigger] after[i]).addr()
            != before[last].addr() by {
            assert(after[i] == before[i]);
        }
        assert forall|i: int| 0 <= i < after.len() implies {
            &&& post.heap@.contains_key((#[trigger] after[i]).addr())
            &&& !post.chain@.contains(after[i].addr())
            &&& post.heap@[after[i].addr()].value is None
        } by {
            assert(after[i] == before[i]);
        }
        assert forall|i: int, j: int| 0 <= i < j < after.len() implies (#[trigger] after[i]).addr()
            != (#[trigger] after[j]).addr() by {
            assert(after[i] == before[i] && after[j] == before[j]);
        }
        assert(post@ =~= pre@);
        assert(post.links() =~= pre.links());
    }

    /// A newly allocated node is loose.
    proof fn lemma_fresh(pre: Queue<T>, post: Queue<T>, addr: u64)
        requires
            pre.shape(0),
            !pre.heap@.contains_key(addr),
            post.heap.wf(),
            post.heap.live() == pre.heap.live() + 1,
            post.heap@.dom() == pre.heap@.dom().insert(addr),
            forall|a: u64| pre.heap@.contains_key(a) ==> post.heap@[a] == pre.heap@[a],
            post.free.wf(),
            post.free@ == pre.free@,
            post.head == pre.head,
            post.tail == pre.tail,
            post.chain@ == pre.chain@,
            post.tail_at@ == pre.tail_at@,
        ensures
            post.shape(1),
            post.loose(addr),
            post@ == pre@,
            post.links() == pre.links(),
            post.addresses() == pre.addresses(),
    {
        reveal(Queue::shape);
        let chain = pre.chain@;
        assert forall|i: int| 0 <= i < chain.len() implies post.heap@.contains_key(
            #[trigger] chain[i],
        ) && post.heap@[chain[i]].next == pre.heap@[chain[i]].next by {}
        lemma_chain_frame(pre.heap@, post.heap@, pre.head.addr(), chain);
        if chain.contains(addr) {
            let i = choose|i: int| 0 <= i < chain.len() && chain[i] == addr;
            assert(pre.heap@.contains_key(chain[i]));
        }
        assert(post@ =~= pre@);
        assert(post.links() =~= pre.links());
    }

    /// Writing to a loose node leaves the queue as it is.
    proof fn lemma_write_loose(pre: Queue<T>, post: Queue<T>, addr: u64, node: Node<T>)
        requires
            pre.shape(1),
            pre.loose(addr),
            post.heap.wf(),
            post.heap.live() == pre.heap.live(),
            post.heap@ == pre.heap@.insert(addr, node),
            post.free.wf(),
            post.free@ == pre.free@,
            post.head == pre.head,
            post.tail == pre.tail,
            post.chain@ == pre.chain@,
            post.tail_at@ == pre.tail_at@,
        ensures
            post.shape(1),
            post.loose(addr),
            post@ == pre@,
            post.links() == pre.links(),
            post.addresses() == pre.addresses(),
    {
        reveal(Queue::shape);
        let chain = pre.chain@;
        assert forall|i: int| 0 <= i < chain.len() implies post.heap@.contains_key(
            #[trigger] chain[i],
        ) && post.heap@[chain[i]] == pre.heap@[chain[i]] by {
            assert(chain.contains(chain[i]));
        }
        lemma_chain_frame(pre.heap@, post.heap@, pre.head.addr(), chain);
        assert(post@ =~= pre@);
        assert(post.links() =~= pre.links());
    }

    /// Moving the tail cell one node on, with the next tag, keeps the shape.
    proof fn lemma_help(pre: Queue<T>, post: Queue<T>, in_transit: nat)
        requires
            pre.shape(in_transit),
            pre.tail_at@ + 1 < pre.chain@.len(),
            post.tail.addr() == pre.chain@[pre.tail_at@ + 1],
            post.tail.tag() == next_tag(pre.tail.tag()),
            post.tail_at@ == pre.tail_at@ + 1,
            post.heap == pre.heap,
            post.free.wf(),
            post.free@ == pre.free@,
            post.head == pre.head,
            post.chain@ == pre.chain@,
        ensures
            post.shape(in_transit),
            post@ == pre@,
            post.links() == pre.links(),
            post.addresses() == pre.addresses(),
    {
        reveal(Queue::shape);
        lemma_advance_tag(pre.head.tag(), pre.tail_at@ as nat, 1);
        lemma_advance_tag(pre.tail.tag(), 1, 0);
        assert(post.links() =~= pre.links());
    }

    /// Linking the pending node behind the last node puts its value at the
    /// end of the queue.
    proof fn lemma_link(pre: Queue<T>, post: Queue<T>, addr: u64, value: T, last: Node<T>)
        requires
            pre.shape(1),
            pre.loose(addr),
            pre.heap@[addr].value == Some(value),
            pre.heap@[addr].next.addr() == 0,
            addr != 0,
            pre.tail_at@ == pre.chain@.len() - 1,
            last.value == pre.heap@[pre.tail.addr()].value,
            last.next.addr() == addr,
            post.heap.wf(),
            post.heap.live() == pre.heap.live(),
            post.heap@ == pre.heap@.insert(pre.tail.addr(), last),
            post.chain@ == pre.chain@.push(addr),
            post.free.wf(),
            post.free@ == pre.free@,
            post.head == pre.head,
            post.tail == pre.tail,
            post.tail_at@ == pre.tail_at@,
        ensures
            post.shape(0),
            post@ == pre@.push(value),
            post.addresses() == pre.addresses().push(addr),
            post.links() == pre.links().update(pre.chain@.len() - 1, last.next.word()).push(
                pre.heap@[addr].next.word(),
            ),
    {
        reveal(Queue::shape);
        let chain = pre.chain@;
        let longer = post.chain@;
        let n = chain.len() as int;
        let t = pre.tail.addr();
        assert(chain.contains(chain[n - 1]));
        assert(t != addr);
        assert forall|i: int| 0 <= i < longer.len() implies #[trigger] longer[i] != 0
            && post.heap@.contains_key(longer[i]) by {
            if i < n {
                assert(longer[i] == chain[i]);
            }
        }
        assert forall|i: int| 0 <= i < longer.len() implies #[trigger] link_at(
            post.heap@,
            longer,
            i,
        ) by {
            if i < n {
                assert(longer[i] == chain[i]);
                assert(chain.contains(chain[i]));
                assert(link_at(pre.heap@, chain, i));
                if i < n - 1 {
                    assert(chain[i] != chain[n - 1]);
                    assert(longer[i + 1] == chain[i + 1]);
                }
            }
        }
        assert forall|i: int, j: int| 0 <= i < j < longer.len() implies #[trigger] longer[i]
            != #[trigger] longer[j] by {
            assert(longer[i] == chain[i]);
            assert(chain.contains(chain[i]));
            if j < n {
                assert(longer[j] == chain[j]);
            }
        }
        assert forall|i: int| 1 <= i < longer.len() implies post.heap@[#[trigger] longer[i]].value
            is Some by {
            if i < n {
                assert(longer[i] == chain[i]);
            }
        }
        let retired = pre.free@;
        assert forall|i: int| 0 <= i < retired.len() implies {
            &&& post.heap@.contains_key((#[trigger] retired[i]).addr())
            &&& !longer.contains(retired[i].addr())
            &&& post.heap@[retired[i].addr()].value is None
        } by {
            let a = retired[i].addr();
            assert(!chain.contains(a));
            if longer.contains(a) {
                let j = choose|j: int| 0 <= j < longer.len() && longer[j] == a;
                if j < n {
                    assert(chain[j] == a);
                }
            }
            assert(a != t);
        }
        assert forall|i: int| 0 <= i < n implies post@[i] == pre@.push(value)[i] by {
            if i < n - 1 {
                assert(longer[i + 1] == chain[i + 1]);
                assert(chain.contains(chain[i + 1]));
            }
        }
        assert(post@ =~= pre@.push(value));
        assert(post.links() =~= pre.links().update(n - 1, last.next.word()).push(
            pre.heap@[addr].next.word(),
        )) by {
            assert forall|i: int| 0 <= i < n - 1 implies longer[i] != t by {
                assert(longer[i] == chain[i]);
                assert(chain[i] != chain[n - 1]);
            }
        }
    }

    /// Moving the head cell one node on, with the next tag, takes the oldest
    /// value out of the queue and sets the former sentinel loose.
    proof fn lemma_unlink(pre: Queue<T>, post: Queue<T>)
        requires
            pre.shape(0),
            pre.chain@.len() > 1,
            pre.tail_at@ >= 1,
            post.head.addr() == pre.chain@[1],
            post.head.tag() == next_tag(pre.head.tag()),
            post.chain@ == pre.chain@.skip(1),
            post.tail_at@ == pre.tail_at@ - 1,
            post.heap == pre.heap,
            post.free.wf(),
            post.free@ == pre.free@,
            post.tail == pre.tail,
        ensures
            post.shape(1),
            post.loose(pre.chain@[0]),
            pre@.len() > 0,
            pre@[0] == pre.heap@[pre.chain@[1]].value->Some_0,
            post@ == pre@.skip(1),
            post.addresses() == pre.addresses().skip(1),
            post.links() == pre.links().skip(1),
    {
        reveal(Queue::shape);
        let chain = pre.chain@;
        let rest = post.chain@;
        lemma_advance_tag(pre.head.tag(), 1, (pre.tail_at@ - 1) as nat);
        assert forall|i: int| 0 <= i < rest.len() implies #[trigger] rest[i] != 0
            && post.heap@.contains_key(rest[i]) by {
            assert(rest[i] == chain[i + 1]);
        }
        assert forall|i: int| 0 <= i < rest.len() implies #[trigger] link_at(post.heap@, rest, i) by {
            assert(rest[i] == chain[i + 1]);
            assert(link_at(pre.heap@, chain, i + 1));
            if i + 1 < rest.len() {
                assert(rest[i + 1] == chain[i + 2]);
            }
        }
        assert forall|i: int, j: int| 0 <= i < j < rest.len() implies #[trigger] rest[i]
            != #[trigger] rest[j] by {
            assert(rest[i] == chain[i + 1] && rest[j] == chain[j + 1]);
        }
        assert forall|i: int| 1 <= i < rest.len() implies post.heap@[#[trigger] rest[i]].value
            is Some by {
            assert(rest[i] == chain[i + 1]);
        }
        if rest.contains(chain[0]) {
            let j = choose|j: int| 0 <= j < rest.len() && rest[j] == chain[0];
            assert(chain[j + 1] == chain[0]);
        }
        let retired = pre.free@;
        assert(chain.contains(chain[0]));
        assert forall|i: int| 0 <= i < retired.len() implies {
            &&& post.heap@.contains_key((#[trigger] retired[i]).addr())
            &&& !rest.contains(retired[i].addr())
            &&& post.heap@[retired[i].addr()].value is None
            &&& retired[i].addr() != chain[0]
        } by {
            let a = retired[i].addr();
            if rest.contains(a) {
                let j = choose|j: int| 0 <= j < rest.len() && rest[j] == a;
                assert(chain[j + 1] == a);
                assert(chain.contains(a));
            }
        }
        assert(is_chain(post.heap@, post.head.addr(), rest));
        assert(post.tail.addr() == rest[post.tail_at@]);
        assert(post.tail.tag() == advance_tag(post.head.tag(), post.tail_at@ as nat));
        assert(post.shape(1));
        assert(post.loose(chain[0]));
        assert(pre@.len() > 0);
        assert(pre@[0] == pre.heap@[chain[1]].value->Some_0);
        assert forall|i: int| 0 <= i < post@.len() implies post@[i] == pre@.skip(1)[i] by {
            assert(rest[i + 1] == chain[i + 2]);
        }
        assert(post@ =~= pre@.skip(1));
        assert(post.links() =~= pre.links().skip(1));
    }

    /// Giving a loose node back to the allocator leaves the queue as it is.
    proof fn lemma_release(pre: Queue<T>, post: Queue<T>, addr: u64)
        requires
            pre.shape(1),
            pre.loose(addr),
            post.heap.wf(),
            post.heap.live() == pre.heap.live() - 1,
            post.heap@ == pre.heap@.remove(addr),
            post.free.wf(),
            post.free@ == pre.free@,
            post.head == pre.head,
            post.tail == pre.tail,
            post.chain@ == pre.chain@,
            post.tail_at@ == pre.tail_at@,
        ensures
            post.shape(0),
            post@ == pre@,
            post.links() == pre.links(),
            post.addresses() == pre.addresses(),
    {
        reveal(Queue::shape);
        let chain = pre.chain@;
        assert forall|i: int| 0 <= i < chain.len() implies post.heap@.contains_key(
            #[trigger] chain[i],
        ) && post.heap@[chain[i]] == pre.heap@[chain[i]] by {
            assert(chain.contains(chain[i]));
        }
        lemma_chain_frame(pre.heap@, post.heap@, pre.head.addr(), chain);
        assert(post@ =~= pre@);
        assert(post.links() =~= pre.links());
    }

    /// A freelist that holds the same retired nodes serves as well.
    proof fn lemma_refit(pre: Queue<T>, post: Queue<T>)
        requires
            pre.shape(0),
            post.free.wf(),
            post.free@ == pre.free@,
            post.heap == pre.heap,
            post.head == pre.head,
            post.tail == pre.tail,
            post.chain@ == pre.chain@,
            post.tail_at@ == pre.tail_at@,
        ensures
            post.shape(0),
            post@ == pre@,
            post.links() == pre.links(),
            post.addresses() == pre.addresses(),
    {
        reveal(Queue::shape);
        assert(post@ =~= pre@);
        assert(post.links() =~= pre.links());
    }

    /// Putting a loose, empty node on the freelist completes the shape.
    proof fn lemma_retire(pre: Queue<T>, post: Queue<T>, ptr: TaggedPtr)
        requires
            pre.shape(1),
            pre.loose(ptr.addr()),
            pre.heap@[ptr.addr()].value is None,
            post.free.wf(),
            post.free@ == pre.free@.push(ptr),
            post.heap == pre.heap,
            post.head == pre.head,
            post.tail == pre.tail,
            post.chain@ == pre.chain@,
            post.tail_at@ == pre.tail_at@,
        ensures
            post.shape(0),
            post@ == pre@,
            post.links() == pre.links(),
            post.addresses() == pre.addresses(),
    {
        reveal(Queue::shape);
        let before = pre.free@;
        let after = post.free@;
        let n = before.len() as int;
        assert forall|i: int| 0 <= i < after.len() implies {
            &&& post.heap@.contains_key((#[trigger] after[i]).addr())
            &&& !post.chain@.contains(after[i].addr())
            &&& post.heap@[after[i].addr()].value is None
        } by {
            if i < n {
                assert(after[i] == before[i]);
            }
        }
        assert forall|i: int, j: int| 0 <= i < j < after.len() implies (#[trigger] after[i]).addr()
            != (#[trigger] after[j]).addr() by {
            assert(after[i] == before[i]);
            if j < n {
                assert(after[j] == before[j]);
            }
        }
        assert(post@ =~= pre@);
        assert(post.links() =~= pre.links());
    }

    /// The head cell refers to the sentinel, the links lead from there
    /// through the nodes that hold the values, the tail cell refers to a node
    /// of that chain, and every other node is retired and empty.
    pub closed spec fn wf(&self) -> bool {
        self.shape(0)
    }

    /// The nodes of the queue are the sentinel, those that hold its values
    /// and the retired ones. The head cell refers to the sentinel and the
    /// tail cell to a node of the chain, whose tag is as many steps ahead of
    /// the tag of the head cell as that node is behind the sentinel. Each
    /// link leads to the next node, and the last to none.
    pub proof fn lemma_nodes_accounted(&self)
        requires
            self.wf(),
        ensures
            self.nodes() == 1 + self@.len() + self.recycled(),
            self.nodes() < ADDR_SPAN,
            self.tail_lag() <= self@.len(),
            self.addresses().len() == self@.len() + 1,
            self.links().len() == self@.len() + 1,
            self.addresses().no_duplicates(),
            forall|i: int| 0 <= i <= self@.len() ==> 0 < #[trigger] self.addresses()[i] < ADDR_SPAN,
            forall|i: int|
                0 <= i <= self@.len() ==> word_addr(#[trigger] self.links()[i]) == (if i
                    < self@.len() {
                    self.addresses()[i + 1]
                } else {
                    0
                }),
            self.head_word() == pack(self.addresses()[0], self.head_tag()),
            self.tail_word() == pack(
                self.addresses()[self@.len() - self.tail_lag()],
                self.tail_tag(),
            ),
            self.tail_tag() == advance_tag(
                self.head_tag(),
                (self@.len() - self.tail_lag()) as nat,
            ),
    {
        self.lemma_shape_facts(0);
        reveal(Queue::shape);
        lemma_word_parts(self.head.word());
        lemma_word_parts(self.tail.word());
        let chain = self.chain@;
        assert forall|i: int| 0 <= i < chain.len() implies word_addr(#[trigger] self.links()[i])
            == (if i + 1 < chain.len() {
            chain[i + 1]
        } else {
            0
        }) by {
            assert(link_at(self.heap@, chain, i));
        }
    }

    /// The empty queue, with `initial_capacity` empty nodes on its freelist.
    pub fn new(initial_capacity: usize) -> (r: Queue<T>)
        requires
            initial_capacity + 1 < ADDR_SPAN,
        ensures
            r.wf(),
            r@ == Seq::<T>::empty(),
            r.recycled() == initial_capacity,
            r.spare() == 0,
            r.nodes() == 1 + initial_capacity,
            r.head_tag() == 0,
            r.tail_tag() == 0,
            r.tail_lag() == 0,
            r.addresses().len() == 1,
            r.links() == seq![0u64],
            r.head_word() == r.addresses()[0],
            r.tail_word() == r.addresses()[0],
    {
        let mut heap: Heap<Node<T>> = Heap::new();
        let node = Queue::<T>::new_free_node(&mut heap);
        let chain: Ghost<Seq<u64>> = Ghost(Seq::empty().push(node.addr()));
        let mut queue = Queue {
            free: Stack::new(initial_capacity),
            head: node.clone(),
            tail: node.clone(),
            heap,
            chain,
            tail_at: Ghost(0),
        };
        proof {
            reveal(Queue::shape);
            lemma_advance_tag(queue.head.tag(), 0, 0);
            assert(queue@ =~= Seq::<T>::empty());
            assert(queue.links() =~= seq![0u64]);
        }
        queue.extend(initial_capacity);
        queue
    }

    /// A new empty node in `heap`, with no node after it.
    fn new_free_node(heap: &mut Heap<Node<T>>) -> (r: TaggedPtr)
        requires
            old(heap).wf(),
            old(heap).live() + 1 < ADDR_SPAN,
        ensures
            final(heap).wf(),
            r.addr() != 0,
            r.tag() == 0,
            !old(heap)@.contains_key(r.addr()),
            final(heap).live() == old(heap).live() + 1,
            final(heap)@.dom() == old(heap)@.dom().insert(r.addr()),
            forall|a: u64| old(heap)@.contains_key(a) ==> final(heap)@[a] == old(heap)@[a],
            r.word() == r.addr(),
            final(heap)@[r.addr()].value is None,
            final(heap)@[r.addr()].next.addr() == 0,
            final(heap)@[r.addr()].next.word() == 0,
    {
        let n: Box<Node<T>> = Box::new(Node { value: None, next: TaggedPtr::nil() });
        TaggedPtr::from_box(n, heap)
    }

    /// Puts `value` into a retired node or, where there is none, into a new
    /// one, and links that node in behind the last: hands out the tail cell
    /// as it was seen, which is as it stands, and the node.
    fn link_node(&mut self, value: T) -> (r: (TaggedPtr, TaggedPtr))
        requires
            old(self).wf(),
            old(self).recycled() > 0 || old(self).nodes() + 1 < ADDR_SPAN,
        ensures
            final(self).wf(),
            final(self)@ == queue_after(old(self)@, Op::Push(value)),
            final(self).recycled() == free_after(
                old(self)@.len(),
                old(self).recycled(),
                Op::Push(value),
            ),
            final(self).spare() == old(self).spare() + (if old(self).recycled() > 0 {
                1nat
            } else {
                0nat
            }),
            final(self).nodes() == 1 + final(self)@.len() + final(self).recycled(),
            final(self).head_tag() == old(self).head_tag(),
            final(self).head == old(self).head,
            final(self).chain@ == old(self).chain@.push(r.1.addr()),
            final(self).tail_at@ == old(self).chain@.len() - 1,
            old(self).tail_at@ <= final(self).tail_at@,
            r.0 == final(self).tail,
            final(self).links() == old(self).links().update(
                old(self).chain@.len() - 1,
                pack(r.1.addr(), next_tag(word_tag(old(self).links()[old(self).chain@.len() - 1]))),
            ).push(0),
    {
        let ghost pre = *self;
        proof {
            pre.lemma_shape_facts(0);
        }
        let mut node = match self.free.pop() {
            Some(n) => {
                proof {
                    Queue::lemma_recycle(pre, *self);
                }
                n
            },
            None => {
                let n = Queue::<T>::new_free_node(&mut self.heap);
                proof {
                    Queue::lemma_fresh(pre, *self, n.addr());
                }
                n
            },
        };
        let addr: u64 = node.get();
        let ghost taken = *self;
        let slot = self.heap.get_mut(addr);
        slot.value = Some(value);
        slot.next = TaggedPtr::nil();
        proof {
            Queue::lemma_write_loose(taken, *self, addr, self.heap@[addr]);
            self.heap.lemma_addresses_bounded();
        }
        let mut tail: TaggedPtr = TaggedPtr::nil();
        let mut linked: bool = false;
        while !linked
            invariant
                addr == node.addr(),
                addr != 0,
                self.head == pre.head,
                self.free == taken.free,
                self.heap.live() == taken.heap.live(),
                self.chain@.len() >= 1,
                0 <= self.tail_at@ < self.chain@.len(),
                !linked ==> {
                    &&& self.shape(1)
                    &&& self.loose(addr)
                    &&& self.heap@[addr].value == Some(value)
                    &&& self.heap@[addr].next.addr() == 0
                    &&& self.heap@[addr].next.word() == 0
                    &&& self@ == pre@
                    &&& self.chain@ == pre.chain@
                    &&& self.links() == pre.links()
                },
                linked ==> {
                    &&& self.shape(0)
                    &&& self@ == pre@.push(value)
                    &&& self.chain@ == pre.chain@.push(addr)
                    &&& self.tail_at@ == pre.chain@.len() - 1
                    &&& tail == self.tail
                    &&& self.links() == pre.links().update(
                        pre.chain@.len() - 1,
                        pack(addr, next_tag(word_tag(pre.links()[pre.chain@.len() - 1]))),
                    ).push(0)
                },
            decreases (if linked { 0int } else { 1 + self.chain@.len() - self.tail_at@ }),
        {
            proof {
                self.lemma_shape_facts(1);
            }
            tail = self.tail.clone();
            let mut next = self.heap.get(tail.get()).next.clone();
            if tail == self.tail {
                let ghost before = *self;
                if next.is_nil() {
                    node.set_tag(next.get_tag());
                    node.increment_tag();
                    linked = self.heap.get_mut(tail.get()).next.compare_and_set(&next, &node);
                    proof {
                        self.chain@ = before.chain@.push(addr);
                        Queue::lemma_link(
                            before,
                            *self,
                            addr,
                            value,
                            self.heap@[before.tail.addr()],
                        );
                    }
                } else {
                    next.set_tag(tail.get_tag());
                    next.increment_tag();
                    let _ = self.tail.compare_and_set(&tail, &next);
                    proof {
                        self.tail_at@ = before.tail_at@ + 1;
                        Queue::lemma_help(before, *self, 1);
                    }
                }
            }
        }
        proof {
            self.lemma_shape_facts(0);
        }
        (tail, node)
    }

    /// Puts `value` at the end and leaves the tail cell one node behind:
    /// what a push has done once its value is in the queue and before it
    /// moves the tail cell.
    pub fn link(&mut self, value: T)
        requires
            old(self).wf(),
            old(self).recycled() > 0 || old(self).nodes() + 1 < ADDR_SPAN,
        ensures
            final(self).wf(),
            final(self)@ == queue_after(old(self)@, Op::Push(value)),
            final(self).recycled() == free_after(
                old(self)@.len(),
                old(self).recycled(),
                Op::Push(value),
            ),
            final(self).spare() == old(self).spare() + (if old(self).recycled() > 0 {
                1nat
            } else {
                0nat
            }),
            final(self).nodes() == 1 + final(self)@.len() + final(self).recycled(),
            final(self).head_tag() == old(self).head_tag(),
            final(self).nodes() == old(self).nodes() + (if old(self).recycled() > 0 {
                0nat
            } else {
                1nat
            }),
            final(self).addresses() == old(self).addresses().push(final(self).addresses().last()),
            final(self).links() == old(self).links().update(
                old(self)@.len() as int,
                pack(
                    final(self).addresses().last(),
                    next_tag(word_tag(old(self).links()[old(self)@.len() as int])),
                ),
            ).push(0),
            final(self).head_word() == old(self).head_word(),
            final(self).tail_word() == pack(
                old(self).addresses().last(),
                advance_tag(old(self).tail_tag(), old(self).tail_lag()),
            ),
            final(self).tail_tag() == advance_tag(old(self).tail_tag(), old(self).tail_lag()),
            final(self).tail_lag() == 1,
    {
        let ghost pre = *self;
        let _ = self.link_node(value);
        proof {
            pre.lemma_shape_facts(0);
            self.lemma_shape_facts(0);
            lemma_advance_tag(
                pre.head.tag(),
                pre.tail_at@ as nat,
                (pre.chain@.len() - 1 - pre.tail_at@) as nat,
            );
            lemma_word_parts(self.tail.word());
            pre.free.lemma_nodes_accounted();
        }
    }

    /// Puts `value` at the end, in a retired node or, where there is none,
    /// in a new one, and moves the tail cell to that node.
    pub fn push(&mut self, value: T)
        requires
            old(self).wf(),
            old(self).recycled() > 0 || old(self).nodes() + 1 < ADDR_SPAN,
        ensures
            final(self).wf(),
            final(self)@ == queue_after(old(self)@, Op::Push(value)),
            final(self).recycled() == free_after(
                old(self)@.len(),
                old(self).recycled(),
                Op::Push(value),
            ),
            final(self).spare() == old(self).spare() + (if old(self).recycled() > 0 {
                1nat
            } else {
                0nat
            }),
            final(self).nodes() == 1 + final(self)@.len() + final(self).recycled(),
            final(self).head_tag() == old(self).head_tag(),
            final(self).nodes() == old(self).nodes() + (if old(self).recycled() > 0 {
                0nat
            } else {
                1nat
            }),
            final(self).addresses() == old(self).addresses().push(final(self).addresses().last()),
            final(self).links() == old(self).links().update(
                old(self)@.len() as int,
                pack(
                    final(self).addresses().last(),
                    next_tag(word_tag(old(self).links()[old(self)@.len() as int])),
                ),
            ).push(0),
            final(self).head_word() == old(self).head_word(),
            final(self).tail_word() == pack(
                final(self).addresses().last(),
                advance_tag(old(self).tail_tag(), old(self).tail_lag() + 1),
            ),
            final(self).tail_tag() == advance_tag(old(self).tail_tag(), old(self).tail_lag() + 1),
            final(self).tail_lag() == 0,
    {
        let ghost pre = *self;
        let (tail, mut node) = self.link_node(value);
        let ghost before = *self;
        proof {
            pre.lemma_shape_facts(0);
            before.lemma_shape_facts(0);
        }
        node.set_tag(tail.get_tag());
        node.increment_tag();
        let _ = self.tail.compare_and_set(&tail, &node);
        proof {
            self.tail_at@ = before.tail_at@ + 1;
            Queue::lemma_help(before, *self, 0);
            self.lemma_shape_facts(0);
            lemma_advance_tag(
                pre.head.tag(),
                pre.tail_at@ as nat,
                (pre.chain@.len() - pre.tail_at@) as nat,
            );
            lemma_advance_tag(pre.tail.tag(), (pre.chain@.len() - 1 - pre.tail_at@) as nat, 1);
            lemma_advance_tag(
                pre.head.tag(),
                pre.tail_at@ as nat,
                (pre.chain@.len() - 1 - pre.tail_at@) as nat,
            );
            lemma_word_parts(self.tail.word());
        }
    }

    /// Takes the oldest value out: hands out a copy of it, makes its node
    /// the sentinel and retires the former sentinel; `None` from the empty
    /// queue, which stays as it is.
    pub fn pop(&mut self) -> (r: Option<T>)
        requires
            old(self).wf(),
        ensures
            final(self).wf(),
            match queue_out(old(self)@, Op::Pop) {
                Some(oldest) => r is Some && cloned(oldest, r->Some_0),
                None => r is None && *final(self) == *old(self),
            },
            clone_keeps::<T>() ==> r == queue_out(old(self)@, Op::Pop),
            final(self)@ == queue_after(old(self)@, Op::Pop),
            final(self).recycled() == free_after(
                old(self)@.len(),
                old(self).recycled(),
                Op::<T>::Pop,
            ),
            final(self).nodes() == old(self).nodes(),
            old(self)@.len() > 0 ==> {
                &&& final(self).spare() == (if old(self).spare() > 0 {
                    old(self).spare() - 1
                } else {
                    0
                })
                &&& final(self).addresses() == old(self).addresses().skip(1)
                &&& final(self).links() == old(self).links().skip(1)
                &&& final(self).head_word() == pack(
                    old(self).addresses()[1],
                    next_tag(old(self).head_tag()),
                )
                &&& final(self).tail_word() == (if old(self).tail_lag() == old(self)@.len() {
                    pack(old(self).addresses()[1], next_tag(old(self).tail_tag()))
                } else {
                    old(self).tail_word()
                })
                &&& final(self).head_tag() == next_tag(old(self).head_tag())
                &&& final(self).tail_tag() == (if old(self).tail_lag() == old(self)@.len() {
                    next_tag(old(self).tail_tag())
                } else {
                    old(self).tail_tag()
                })
                &&& final(self).tail_lag() == (if old(self).tail_lag() == old(self)@.len() {
                    old(self)@.len() - 1
                } else {
                    old(self).tail_lag() as int
                })
            },
    {
        let ghost pre = *self;
        proof {
            pre.lemma_shape_facts(0);
        }
        let mut r: Option<T> = None;
        let mut done: bool = false;
        while !done
            invariant
                pre.shape(0),
                self.chain@.len() >= 1,
                0 <= self.tail_at@ < self.chain@.len(),
                !done ==> {
                    &&& r is None
                    &&& self.shape(0)
                    &&& self.heap == pre.heap
                    &&& self.free == pre.free
                    &&& self.head == pre.head
                    &&& self.chain == pre.chain
                    &&& self.links() == pre.links()
                    &&& (self.tail == pre.tail && self.tail_at == pre.tail_at) || (pre.tail_at@
                        == 0 && self.tail_at@ == 1 && self.tail.word() == pack(
                        pre.chain@[1],
                        next_tag(pre.tail.tag()),
                    ))
                },
                done ==> {
                    &&& self.shape(0)
                    &&& self.heap.live() == pre.heap.live()
                    &&& match r {
                        None => pre@.len() == 0 && *self == pre,
                        Some(v) => {
                            &&& pre@.len() > 0
                            &&& cloned(pre@[0], v)
                            &&& self@ == pre@.skip(1)
                            &&& self.free@.len() == pre.free@.len() + 1
                            &&& self.free.free_count() == (if pre.free.free_count() > 0 {
                                pre.free.free_count() - 1
                            } else {
                                0
                            })
                            &&& self.head.word() == pack(pre.chain@[1], next_tag(pre.head.tag()))
                            &&& self.chain@ == pre.chain@.skip(1)
                            &&& self.links() == pre.links().skip(1)
                            &&& if pre.tail_at@ == 0 {
                                self.tail_at@ == 0 && self.tail.word() == pack(
                                    pre.chain@[1],
                                    next_tag(pre.tail.tag()),
                                )
                            } else {
                                self.tail_at@ == pre.tail_at@ - 1 && self.tail == pre.tail
                            }
                        },
                    }
                },
            decreases
                    (if done {
                        0int
                    } else if self.tail_at@ == 0 && self.chain@.len() > 1 {
                        2int
                    } else {
                        1int
                    }),
        {
            proof {
                self.lemma_shape_facts(0);
            }
            let head = self.head.clone();
            let tail = self.tail.clone();
            let mut next = self.heap.get(head.get()).next.clone();
            if head == self.head {
                let ghost before = *self;
                if head == tail {
                    if next.is_nil() {
                        done = true;
                    } else {
                        next.set_tag(tail.get_tag());
                        next.increment_tag();
                        let _ = self.tail.compare_and_set(&tail, &next);
                        proof {
                            self.tail_at@ = 1;
                            Queue::lemma_help(before, *self, 0);
                        }
                    }
                } else {
                    let value = self.heap.get(next.get()).value.clone();
                    next.set_tag(head.get_tag());
                    next.increment_tag();
                    if self.head.compare_and_set(&head, &next) {
                        proof {
                            self.chain@ = before.chain@.skip(1);
                            self.tail_at@ = before.tail_at@ - 1;
                            Queue::lemma_unlink(before, *self);
                        }
                        let ghost unlinked = *self;
                        let slot = self.heap.get_mut(head.get());
                        slot.value = None;
                        proof {
                            Queue::lemma_write_loose(
                                unlinked,
                                *self,
                                head.addr(),
                                self.heap@[head.addr()],
                            );
                            self.lemma_shape_facts(1);
                            self.free.lemma_nodes_accounted();
                        }
                        let ghost emptied = *self;
                        self.free.push(head);
                        proof {
                            Queue::lemma_retire(emptied, *self, head);
                        }
                        r = value;
                        done = true;
                    }
                }
            }
        }
        proof {
            if pre.chain@.len() > 1 {
                lemma_pack_parts(pre.chain@[1], next_tag(pre.head.tag()));
                lemma_pack_parts(pre.chain@[1], next_tag(pre.tail.tag()));
            }
        }
        r
    }

    /// Gives the retired nodes back to the allocator, and with them the
    /// nodes that the freelist kept for them.
    pub fn compact(&mut self)
        requires
            old(self).wf(),
        ensures
            final(self).wf(),
            final(self)@ == old(self)@,
            final(self).recycled() == 0,
            final(self).spare() == 0,
            final(self).nodes() == old(self).nodes() - old(self).recycled(),
            final(self).addresses() == old(self).addresses(),
            final(self).links() == old(self).links(),
            final(self).head_word() == old(self).head_word(),
            final(self).tail_word() == old(self).tail_word(),
            final(self).tail_lag() == old(self).tail_lag(),
    {
        proof {
            self.lemma_shape_facts(0);
        }
        while !self.free.is_empty()
            invariant
                self.wf(),
                self.free.wf(),
                self@ == old(self)@,
                self.nodes() - self.recycled() == old(self).nodes() - old(self).recycled(),
                self.head == old(self).head,
                self.tail == old(self).tail,
                self.chain@ == old(self).chain@,
                self.links() == old(self).links(),
                self.tail_at@ == old(self).tail_at@,
            decreases self.free@.len(),
        {
            let ghost pre = *self;
            let popped = self.free.pop();
            let mut ptr: TaggedPtr = popped.unwrap();
            proof {
                Queue::lemma_recycle(pre, *self);
                self.lemma_shape_facts(1);
                self.heap.lemma_nil_is_vacant();
            }
            let ghost taken = *self;
            let _ = ptr.to_box(&mut self.heap);
            proof {
                Queue::lemma_release(taken, *self, pre.free@.last().addr());
                self.lemma_shape_facts(0);
            }
        }
        let ghost drained = *self;
        self.free.compact();
        proof {
            Queue::lemma_refit(drained, *self);
        }
    }

    /// Puts `count` new empty nodes on the freelist, so that as many pushes
    /// allocate nothing.
    pub fn extend(&mut self, count: usize)
        requires
            old(self).wf(),
            old(self).nodes() + count < ADDR_SPAN,
        ensures
            final(self).wf(),
            final(self)@ == old(self)@,
            final(self).recycled() == old(self).recycled() + count,
            final(self).spare() == (if old(self).spare() >= count {
                old(self).spare() - count
            } else {
                0
            }),
            final(self).nodes() == old(self).nodes() + count,
            final(self).addresses() == old(self).addresses(),
            final(self).links() == old(self).links(),
            final(self).head_word() == old(self).head_word(),
            final(self).tail_word() == old(self).tail_word(),
            final(self).tail_lag() == old(self).tail_lag(),
    {
        let mut done: usize = 0;
        while done < count
            invariant
                done <= count,
                old(self).nodes() + count < ADDR_SPAN,
                self.wf(),
                self@ == old(self)@,
                self.recycled() == old(self).recycled() + done,
                self.spare() == (if old(self).spare() >= done {
                    old(self).spare() - done
                } else {
                    0
                }),
                self.nodes() == old(self).nodes() + done,
                self.head == old(self).head,
                self.tail == old(self).tail,
                self.chain@ == old(self).chain@,
                self.links() == old(self).links(),
                self.tail_at@ == old(self).tail_at@,
            decreases count - done,
        {
            let ghost pre = *self;
            proof {
                pre.lemma_shape_facts(0);
            }
            let node = Queue::<T>::new_free_node(&mut self.heap);
            proof {
                Queue::lemma_fresh(pre, *self, node.addr());
                self.lemma_shape_facts(1);
                self.free.lemma_nodes_accounted();
            }
            let ghost fresh = *self;
            self.free.push(node);
            proof {
                Queue::lemma_retire(fresh, *self, node);
            }
            done = done + 1;
        }
    }

    /// How many nodes the queue owns: the sentinel, those that hold the
    /// values, and the retired ones.
    pub fn node_count(&self) -> (n: usize)
        ensures
            n == self.nodes(),
    {
        self.heap.len()
    }

    /// Whether the queue holds no value.
    pub fn is_empty(&self) -> (r: bool)
        requires
            self.wf(),
        ensures
            r == (self@.len() == 0),
    {
        proof {
            self.lemma_shape_facts(0);
        }
        self.heap.get(self.head.get()).next.is_nil()
    }
}

/// A handle for pushing onto a queue that several threads share: an owner of
/// the lock that guards it.
#[verifier::reject_recursive_types(T)]
pub struct QueueProducer<T: Clone> {
    queue: Arc<Mutex<Queue<T>>>,
}

/// A handle for popping off a queue that several threads share: an owner of
/// the lock that guards it.
#[verifier::reject_recursive_types(T)]
pub struct QueueConsumer<T: Clone> {
    queue: Arc<Mutex<Queue<T>>>,
}

impl<T: Clone> QueueProducer<T> {
    /// The lock on the queue that this handle pushes onto.
    pub closed spec fn target(&self) -> Mutex<Queue<T>> {
        *self.queue
    }

    /// A handle on the queue that `queue` guards.
    pub fn new(queue: &Arc<Mutex<Queue<T>>>) -> (r: QueueProducer<T>)
        ensures
            r.target() == **queue,
    {
        QueueProducer { queue: share(queue) }
    }

    /// The lock on the queue that this handle pushes onto.
    pub fn queue(&self) -> (r: &Arc<Mutex<Queue<T>>>)
        ensures
            **r == self.target(),
    {
        &self.queue
    }
}

impl<T: Clone> Clone for QueueProducer<T> {
    /// A second handle on the same queue.
    fn clone(&self) -> (r: Self)
        ensures
            r.target() == self.target(),
    {
        QueueProducer { queue: share(&self.queue) }
    }
}

impl<T: Clone> QueueConsumer<T> {
    /// The lock on the queue that this handle pops off.
    pub closed spec fn target(&self) -> Mutex<Queue<T>> {
        *self.queue
    }

    /// A handle on the queue that `queue` guards.
    pub fn new(queue: &Arc<Mutex<Queue<T>>>) -> (r: QueueConsumer<T>)
        ensures
            r.target() == **queue,
    {
        QueueConsumer { queue: share(queue) }
    }

    /// The lock on the queue that this handle pops off.
    pub fn queue(&self) -> (r: &Arc<Mutex<Queue<T>>>)
        ensures
            **r == self.target(),
    {
        &self.queue
    }
}

impl<T: Clone> Clone for QueueConsumer<T> {
    /// A second handle on the same queue.
    fn clone(&self) -> (r: Self)
        ensures
            r.target() == self.target(),
    {
        QueueConsumer { queue: share(&self.queue) }
    }
}

} // verus!
