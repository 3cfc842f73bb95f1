//! A Treiber stack of nodes that its caller owns: the stack links and unlinks
//! them and never allocates.

use crate::atomic::{
    advance_tag, lemma_advance_tag, lemma_pack_parts, next_tag, pack, word_addr, word_tag, TaggedPtr,
};
use crate::heap::Heap;
use crate::lockfree::node::Node;
use core::marker::PhantomData;
use vstd::prelude::*;

verus! {

/// Whether the link of the node at place `i` of `chain` leads to the node at
/// the next place, or is nil at the last place.
pub open spec fn link_at<T>(nodes: Map<u64, Node<T>>, chain: Seq<u64>, i: int) -> bool {
    nodes[chain[i]].next.addr() == (if i + 1 < chain.len() {
        chain[i + 1]
    } else {
        0
    })
}

/// Whether `chain` lists the nodes that are met when the links in `nodes` are
/// followed from `start` until a link is nil: each node once, in order.
pub open spec fn is_chain<T>(nodes: Map<u64, Node<T>>, start: u64, chain: Seq<u64>) -> bool {
    &&& start == (if chain.len() == 0 {
        0
    } else {
        chain[0]
    })
    &&& forall|i: int|
        0 <= i < chain.len() ==> #[trigger] chain[i] != 0 && nodes.contains_key(chain[i])
    &&& forall|i: int| 0 <= i < chain.len() ==> #[trigger] link_at(nodes, chain, i)
    &&& forall|i: int, j: int|
        0 <= i < j < chain.len() ==> #[trigger] chain[i] != #[trigger] chain[j]
}

/// A chain stays a chain when the store changes without touching the links of
/// its nodes.
pub proof fn lemma_chain_frame<T>(
    before: Map<u64, Node<T>>,
    after: Map<u64, Node<T>>,
    start: u64,
    chain: Seq<u64>,
)
    requires
        is_chain(before, start, chain),
        forall|i: int|
            0 <= i < chain.len() ==> after.contains_key(#[trigger] chain[i]) && after[chain[i]].next
                == before[chain[i]].next,
    ensures
        is_chain(after, start, chain),
{
    assert forall|i: int| 0 <= i < chain.len() implies #[trigger] link_at(after, chain, i) by {
        assert(link_at(before, chain, i));
    }
}

/// A chain stays a chain when the store keeps each of its nodes, with its
/// link.
pub proof fn lemma_chain_kept<T>(
    before: Map<u64, Node<T>>,
    after: Map<u64, Node<T>>,
    start: u64,
    chain: Seq<u64>,
)
    requires
        is_chain(before, start, chain),
        forall|a: u64| #[trigger]
            chain.contains(a) ==> after.contains_key(a) && after[a].next == before[a].next,
    ensures
        is_chain(after, start, chain),
{
    assert forall|i: int| 0 <= i < chain.len() implies after.contains_key(#[trigger] chain[i])
        && after[chain[i]].next == before[chain[i]].next by {
        assert(chain.contains(chain[i]));
    }
    lemma_chain_frame(before, after, start, chain);
}

/// What a chain holds once a node was put in front of it.
pub proof fn lemma_cons_contains(chain: Seq<u64>, a: u64)
    ensures
        forall|x: u64| #[trigger] (seq![a] + chain).contains(x) <==> (x == a || chain.contains(x)),
{
    let longer = seq![a] + chain;
    assert forall|x: u64| #[trigger] longer.contains(x) <==> (x == a || chain.contains(x)) by {
        if longer.contains(x) {
            let i = choose|i: int| 0 <= i < longer.len() && longer[i] == x;
            if i > 0 {
                assert(chain[i - 1] == x);
            }
        }
        if x == a {
            assert(longer[0] == x);
        }
        if chain.contains(x) {
            let i = choose|i: int| 0 <= i < chain.len() && chain[i] == x;
            assert(longer[i + 1] == x);
        }
    }
}

/// What a chain holds once its first node was taken off.
pub proof fn lemma_rest_contains<T>(nodes: Map<u64, Node<T>>, start: u64, chain: Seq<u64>)
    requires
        is_chain(nodes, start, chain),
        chain.len() > 0,
    ensures
        forall|x: u64|
            #[trigger] chain.skip(1).contains(x) <==> (chain.contains(x) && x != chain[0]),
{
    let rest = chain.skip(1);
    assert forall|x: u64| #[trigger] rest.contains(x) <==> (chain.contains(x) && x != chain[0]) by {
        if rest.contains(x) {
            let i = choose|i: int| 0 <= i < rest.len() && rest[i] == x;
            assert(chain[i + 1] == x);
        }
        if chain.contains(x) && x != chain[0] {
            let i = choose|i: int| 0 <= i < chain.len() && chain[i] == x;
            assert(rest[i - 1] == x);
        }
    }
}

/// The address of the first node of `chain`, or nil.
pub open spec fn first_of(chain: Seq<u64>) -> u64 {
    if chain.len() > 0 {
        chain[0]
    } else {
        0
    }
}

/// The address of the second node of `chain`, or nil.
pub open spec fn second_of(chain: Seq<u64>) -> u64 {
    if chain.len() > 1 {
        chain[1]
    } else {
        0
    }
}

/// An intrusive stack: a head cell, and the nodes that the links lead
/// through from there.
pub struct IntrusiveStack<T> {
    head: TaggedPtr,
    history: Ghost<Seq<Seq<u64>>>,
    value: PhantomData<T>,
}

/// What a thread saw in the head cell of a stack, and when.
pub struct Seen {
    head: TaggedPtr,
    at: Ghost<nat>,
}

/// What a thread read in the link of the node that it saw at the head, and
/// when.
pub struct Link {
    next: TaggedPtr,
    at: Ghost<nat>,
    chain: Ghost<Seq<u64>>,
}

impl Seen {
    /// What the head cell held.
    pub closed spec fn cell(&self) -> TaggedPtr {
        self.head
    }

    /// How many words had been installed in the head cell when it was seen.
    pub closed spec fn at(&self) -> nat {
        self.at@
    }

    /// What the head cell held.
    pub fn head(&self) -> (r: &TaggedPtr)
        ensures
            *r == self.cell(),
    {
        &self.head
    }
}

impl Link {
    /// What the link held.
    pub closed spec fn cell(&self) -> TaggedPtr {
        self.next
    }

    /// What the link held.
    pub fn next(&self) -> (r: &TaggedPtr)
        ensures
            *r == self.cell(),
    {
        &self.next
    }
}

impl<T> IntrusiveStack<T> {
    /// The addresses of the nodes on the stack, the top one first.
    pub closed spec fn view(&self) -> Seq<u64> {
        self.history@.last()
    }

    /// How many words were installed in the head cell since the stack was
    /// made: one by each push and by each pop that found a node.
    pub closed spec fn installs(&self) -> nat {
        if self.history@.len() > 0 {
            (self.history@.len() - 1) as nat
        } else {
            0
        }
    }

    /// The word in the head cell.
    pub closed spec fn head_word(&self) -> u64 {
        self.head.word()
    }

    /// The address in the head cell.
    pub open spec fn head_addr(&self) -> u64 {
        word_addr(self.head_word())
    }

    /// The tag in the head cell.
    pub open spec fn head_tag(&self) -> u16 {
        word_tag(self.head_word())
    }

    /// The head cell refers to the top node, and its tag counts the
    /// installs, from zero again after the largest tag.
    pub closed spec fn stamped(&self) -> bool {
        &&& self.history@.len() > 0
        &&& self.head.addr() == first_of(self.history@.last())
        &&& self.head.tag() == advance_tag(0, self.installs())
    }

    /// The head cell refers to the top node, and the links of the nodes in
    /// `heap` lead from there through the whole stack to nil.
    pub open spec fn wf(&self, heap: &Heap<Node<T>>) -> bool {
        &&& self.stamped()
        &&& is_chain(heap@, self.head_addr(), self@)
    }

    /// Whether this is the stack `earlier` after some pushes and pops, or
    /// `earlier` itself.
    pub closed spec fn follows(&self, earlier: &IntrusiveStack<T>) -> bool {
        earlier.history@.is_prefix_of(self.history@)
    }

    /// Whether `seen` is what the head cell of this stack held when `seen.at()`
    /// words had been installed in it.
    pub closed spec fn saw(&self, seen: &Seen) -> bool {
        &&& seen.at@ < self.history@.len()
        &&& seen.head.addr() == first_of(self.history@[seen.at@ as int])
        &&& seen.head.tag() == advance_tag(0, seen.at@)
    }

    /// Whether `link` was read, not before `seen` was seen, in the node that
    /// `seen` refers to: if nothing was installed in between, it is the link
    /// of the node that was the top then.
    pub closed spec fn read(&self, seen: &Seen, link: &Link) -> bool {
        &&& seen.at@ <= link.at@ < self.history@.len()
        &&& self.history@[link.at@ as int] == link.chain@
        &&& link.at@ == seen.at@ ==> link.next.addr() == second_of(link.chain@)
    }

    /// What was seen of a stack stays seen of what it becomes.
    pub proof fn lemma_follows(&self, earlier: &IntrusiveStack<T>, seen: &Seen, link: &Link)
        requires
            self.follows(earlier),
        ensures
            earlier.installs() <= self.installs(),
            earlier.saw(seen) ==> self.saw(seen),
            earlier.read(seen, link) ==> self.read(seen, link),
    {
        if earlier.saw(seen) {
            assert(self.history@[seen.at@ as int] == earlier.history@[seen.at@ as int]);
        }
        if earlier.read(seen, link) {
            assert(self.history@[link.at@ as int] == earlier.history@[link.at@ as int]);
        }
    }

    /// What follows a stack that follows a third follows the third.
    pub proof fn lemma_follows_on(&self, second: &IntrusiveStack<T>, first: &IntrusiveStack<T>)
        requires
            self.follows(second),
            second.follows(first),
        ensures
            self.follows(first),
    {
        assert forall|i: int| 0 <= i < first.history@.len() implies first.history@[i]
            == self.history@[i] by {
            assert(first.history@[i] == second.history@[i]);
        }
    }

    /// The empty stack, with tag zero.
    pub fn new() -> (r: IntrusiveStack<T>)
        ensures
            r@ == Seq::<u64>::empty(),
            r.head_word() == 0,
            r.installs() == 0,
            r.stamped(),
            forall|heap: &Heap<Node<T>>| r.wf(heap),
    {
        let r = IntrusiveStack {
            head: TaggedPtr::nil(),
            history: Ghost(Seq::empty().push(Seq::empty())),
            value: PhantomData,
        };
        proof {
            lemma_advance_tag(0, 0, 0);
        }
        r
    }

    /// What the head cell holds now: the first step of a push or a pop.
    pub fn observe(&self) -> (seen: Seen)
        requires
            self.stamped(),
        ensures
            seen.cell().word() == self.head_word(),
            seen.at() == self.installs(),
            self.saw(&seen),
    {
        Seen { head: self.head.clone(), at: Ghost(self.installs()) }
    }

    /// The link of the node that `seen` refers to, as it stands now: the
    /// second step of a pop.
    pub fn follow(&self, heap: &Heap<Node<T>>, seen: &Seen) -> (link: Link)
        requires
            self.wf(heap),
            self.saw(seen),
            heap@.contains_key(seen.cell().addr()),
        ensures
            link.cell() == heap@[seen.cell().addr()].next,
            self.read(seen, &link),
    {
        let next = heap.get(seen.head.get()).next.clone();
        proof {
            if self.installs() == seen.at@ {
                heap.lemma_nil_is_vacant();
                assert(link_at(heap@, self@, 0));
            }
        }
        Link { next, at: Ghost(self.installs()), chain: Ghost(self@) }
    }

    /// One attempt to link `node` in as the new top, by a thread that saw
    /// `seen`: writes what it saw into the link of the node, and installs the
    /// node if the head cell still holds that word.
    pub fn try_push(&mut self, heap: &mut Heap<Node<T>>, node: &TaggedPtr, seen: &Seen) -> (installed:
        bool)
        requires
            old(heap).wf(),
            old(self).wf(old(heap)),
            old(heap)@.contains_key(node.addr()),
            !old(self)@.contains(node.addr()),
        ensures
            installed == (seen.cell().word() == old(self).head_word()),
            installed ==> {
                &&& final(self)@ == seq![node.addr()] + old(self)@
                &&& final(self).head_word() == pack(node.addr(), next_tag(old(self).head_tag()))
                &&& final(self).installs() == old(self).installs() + 1
            },
            !installed ==> *final(self) == *old(self),
            final(self).wf(final(heap)),
            final(self).follows(old(self)),
            final(heap).wf(),
            final(heap).live() == old(heap).live(),
            final(heap)@.dom() == old(heap)@.dom(),
            forall|a: u64|
                a != node.addr() && old(heap)@.contains_key(a) ==> final(heap)@[a] == old(heap)@[a],
            final(heap)@[node.addr()].value == old(heap)@[node.addr()].value,
            final(heap)@[node.addr()].next.word() == seen.cell().word(),
    {
        let addr: u64 = node.get();
        proof {
            heap.lemma_addresses_bounded();
        }
        heap.get_mut(addr).next.set(seen.head.value());
        let mut desired: TaggedPtr = node.clone();
        desired.set_tag(seen.head.get_tag());
        desired.increment_tag();
        proof {
            let before = old(self)@;
            assert forall|i: int| 0 <= i < before.len() implies heap@.contains_key(
                #[trigger] before[i],
            ) && heap@[before[i]].next == old(heap)@[before[i]].next by {
                assert(before.contains(before[i]));
            }
            lemma_chain_frame(old(heap)@, heap@, self.head_addr(), before);
        }
        let installed = self.head.compare_and_set(&seen.head, &desired);
        if installed {
            proof {
                let before = old(self)@;
                let chain = seq![addr] + before;
                self.history@ = self.history@.push(chain);
                lemma_pack_parts(addr, next_tag(old(self).head_tag()));
                lemma_advance_tag(0, old(self).installs(), 1);
                assert forall|i: int| 0 <= i < chain.len() implies #[trigger] chain[i] != 0
                    && heap@.contains_key(chain[i]) by {
                    if i > 0 {
                        assert(chain[i] == before[i - 1]);
                    }
                }
                assert forall|i: int| 0 <= i < chain.len() implies #[trigger] link_at(
                    heap@,
                    chain,
                    i,
                ) by {
                    if i > 0 {
                        assert(chain[i] == before[i - 1]);
                        assert(link_at(heap@, before, i - 1));
                        if i + 1 < chain.len() {
                            assert(chain[i + 1] == before[i]);
                        }
                    } else if chain.len() > 1 {
                        assert(chain[1] == before[0]);
                    }
                }
                assert forall|i: int, j: int| 0 <= i < j < chain.len() implies #[trigger] chain[i]
                    != #[trigger] chain[j] by {
                    assert(chain[j] == before[j - 1]);
                    assert(before.contains(before[j - 1]));
                    if i > 0 {
                        assert(chain[i] == before[i - 1]);
                    }
                }
            }
        }
        installed
    }

    /// One attempt to unlink the top node, by a thread that saw `seen` and
    /// then read `link`: installs the node that `link` refers to if the head
    /// cell still holds the word that was seen. That is so exactly if nothing
    /// was installed since, as long as fewer than 2^16 words were: a node
    /// that left the stack and came back is told apart by the tag.
    pub fn try_pop(&mut self, heap: &Heap<Node<T>>, seen: &Seen, link: &Link) -> (r: Option<
        TaggedPtr,
    >)
        requires
            old(self).wf(heap),
            old(self).saw(seen),
            old(self).read(seen, link),
            seen.cell().addr() != 0,
            old(self).installs() - seen.at() < 0x1_0000,
        ensures
            r is Some <==> seen.cell().word() == old(self).head_word(),
            r is Some <==> seen.at() == old(self).installs(),
            match r {
                Some(p) => {
                    &&& p == seen.cell()
                    &&& old(self)@.len() > 0
                    &&& p.addr() == old(self)@[0]
                    &&& final(self)@ == old(self)@.skip(1)
                    &&& final(self).head_word() == pack(
                        heap@[old(self)@[0]].next.addr(),
                        next_tag(old(self).head_tag()),
                    )
                    &&& final(self).installs() == old(self).installs() + 1
                },
                None => *final(self) == *old(self),
            },
            final(self).wf(heap),
            final(self).follows(old(self)),
    {
        let mut desired = link.next.clone();
        desired.set_tag(seen.head.get_tag());
        desired.increment_tag();
        proof {
            if seen.head.word() == self.head.word() {
                let now = self.installs();
                let then = seen.at@;
                assert(advance_tag(0, now) == advance_tag(0, then));
                assert(now == then);
                assert(link.chain@ == self@);
                assert(link_at(heap@, self@, 0));
            } else if seen.at@ == self.installs() {
                seen.head.lemma_parts_decide(&self.head);
            }
        }
        if self.head.compare_and_set(&seen.head, &desired) {
            proof {
                let before = old(self)@;
                let chain = before.skip(1);
                self.history@ = self.history@.push(chain);
                lemma_pack_parts(desired.addr(), next_tag(old(self).head_tag()));
                lemma_advance_tag(0, old(self).installs(), 1);
                assert forall|i: int| 0 <= i < chain.len() implies #[trigger] chain[i] != 0
                    && heap@.contains_key(chain[i]) by {
                    assert(chain[i] == before[i + 1]);
                }
                assert forall|i: int| 0 <= i < chain.len() implies #[trigger] link_at(
                    heap@,
                    chain,
                    i,
                ) by {
                    assert(chain[i] == before[i + 1]);
                    assert(link_at(heap@, before, i + 1));
                    if i + 1 < chain.len() {
                        assert(chain[i + 1] == before[i + 2]);
                    }
                }
                assert forall|i: int, j: int| 0 <= i < j < chain.len() implies #[trigger] chain[i]
                    != #[trigger] chain[j] by {
                    assert(chain[i] == before[i + 1]);
                    assert(chain[j] == before[j + 1]);
                }
            }
            Some(seen.head.clone())
        } else {
            None
        }
    }

    /// Links `node` in as the new top.
    pub fn push(&mut self, heap: &mut Heap<Node<T>>, node: TaggedPtr)
        requires
            old(heap).wf(),
            old(self).wf(old(heap)),
            old(heap)@.contains_key(node.addr()),
            !old(self)@.contains(node.addr()),
        ensures
            final(self).wf(final(heap)),
            final(self).follows(old(self)),
            final(self)@ == seq![node.addr()] + old(self)@,
            final(self).head_word() == pack(node.addr(), next_tag(old(self).head_tag())),
            final(self).installs() == old(self).installs() + 1,
            final(heap).wf(),
            final(heap).live() == old(heap).live(),
            final(heap)@.dom() == old(heap)@.dom(),
            forall|a: u64|
                a != node.addr() && old(heap)@.contains_key(a) ==> final(heap)@[a] == old(heap)@[a],
            final(heap)@[node.addr()].value == old(heap)@[node.addr()].value,
            final(heap)@[node.addr()].next.word() == old(self).head_word(),
    {
        let mut installed: bool = false;
        while !installed
            invariant
                old(heap).wf(),
                old(self).wf(old(heap)),
                old(heap)@.contains_key(node.addr()),
                !old(self)@.contains(node.addr()),
                heap.wf(),
                heap.live() == old(heap).live(),
                heap@.dom() == old(heap)@.dom(),
                forall|a: u64|
                    a != node.addr() && old(heap)@.contains_key(a) ==> heap@[a] == old(heap)@[a],
                heap@[node.addr()].value == old(heap)@[node.addr()].value,
                !installed ==> *self == *old(self) && self.wf(heap),
                installed ==> {
                    &&& self.wf(heap)
                    &&& self.follows(old(self))
                    &&& self@ == seq![node.addr()] + old(self)@
                    &&& self.head_word() == pack(node.addr(), next_tag(old(self).head_tag()))
                    &&& self.installs() == old(self).installs() + 1
                    &&& heap@[node.addr()].next.word() == old(self).head_word()
                },
            decreases (if installed { 0int } else { 1int }),
        {
            let seen = self.observe();
            installed = self.try_push(heap, &node, &seen);
        }
    }

    /// Unlinks the top node and hands it out, or `None` from the empty stack.
    pub fn pop(&mut self, heap: &Heap<Node<T>>) -> (r: Option<TaggedPtr>)
        requires
            old(self).wf(heap),
        ensures
            final(self).wf(heap),
            final(self).follows(old(self)),
            match r {
                None => old(self)@.len() == 0 && *final(self) == *old(self),
                Some(p) => {
                    &&& old(self)@.len() > 0
                    &&& p.word() == old(self).head_word()
                    &&& p.addr() == old(self)@[0]
                    &&& final(self)@ == old(self)@.skip(1)
                    &&& final(self).head_word() == pack(
                        heap@[old(self)@[0]].next.addr(),
                        next_tag(old(self).head_tag()),
                    )
                    &&& final(self).installs() == old(self).installs() + 1
                },
            },
    {
        let mut r: Option<TaggedPtr> = None;
        let mut done: bool = false;
        while !done
            invariant
                old(self).wf(heap),
                !done ==> *self == *old(self) && r is None,
                done ==> {
                    &&& self.wf(heap)
                    &&& self.follows(old(self))
                    &&& match r {
                        None => old(self)@.len() == 0 && *self == *old(self),
                        Some(p) => {
                            &&& old(self)@.len() > 0
                            &&& p.word() == old(self).head_word()
                            &&& p.addr() == old(self)@[0]
                            &&& self@ == old(self)@.skip(1)
                            &&& self.head_word() == pack(
                                heap@[old(self)@[0]].next.addr(),
                                next_tag(old(self).head_tag()),
                            )
                            &&& self.installs() == old(self).installs() + 1
                        },
                    }
                },
            decreases (if done { 0int } else { 1int }),
        {
            let seen = self.observe();
            if seen.head.is_nil() {
                done = true;
            } else {
                let link = self.follow(heap, &seen);
                r = self.try_pop(heap, &seen, &link);
                done = r.is_some();
            }
        }
        r
    }

    /// Whether no node is on the stack.
    pub fn is_empty(&self, heap: &Heap<Node<T>>) -> (r: bool)
        requires
            self.wf(heap),
        ensures
            r == (self@.len() == 0),
    {
        self.head.is_nil()
    }
}

} // verus!
