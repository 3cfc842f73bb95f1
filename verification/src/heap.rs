//! A store of boxed objects, each named by a nonzero address of at most 48
//! bits. An object keeps its address until it is released; the address of a
//! released object is given out again.

use crate::atomic::ADDR_SPAN;
use vstd::prelude::*;

verus! {

/// The objects that tagged pointers refer to.
pub struct Heap<T> {
    slots: Vec<Option<Box<T>>>,
    vacant: Vec<usize>,
    count: usize,
}

/// A list of different numbers below `bound` has at most `bound` entries.
proof fn lemma_distinct_bounded(list: Seq<usize>, bound: nat)
    requires
        forall|i: int| 0 <= i < list.len() ==> (#[trigger] list[i]) < bound,
        forall|i: int, j: int| 0 <= i < j < list.len() ==> #[trigger] list[i] != #[trigger] list[j],
    ensures
        list.len() <= bound,
    decreases bound,
{
    if bound == 0 {
        if list.len() > 0 {
            assert(list[0] < bound);
        }
    } else if exists|k: int| 0 <= k < list.len() && list[k] == bound - 1 {
        let k = choose|k: int| 0 <= k < list.len() && list[k] == bound - 1;
        let rest = list.remove(k);
        assert forall|i: int| 0 <= i < rest.len() implies (#[trigger] rest[i]) < bound - 1 by {
            if i < k {
                assert(rest[i] == list[i]);
            } else {
                assert(rest[i] == list[i + 1]);
            }
        }
        assert forall|i: int, j: int| 0 <= i < j < rest.len() implies #[trigger] rest[i]
            != #[trigger] rest[j] by {
            let a = if i < k { i } else { i + 1 };
            let b = if j < k { j } else { j + 1 };
            assert(rest[i] == list[a] && rest[j] == list[b]);
        }
        lemma_distinct_bounded(rest, (bound - 1) as nat);
    } else {
        assert forall|i: int| 0 <= i < list.len() implies (#[trigger] list[i]) < bound - 1 by {
            assert(list[i] < bound);
        }
        lemma_distinct_bounded(list, (bound - 1) as nat);
    }
}

impl<T> Heap<T> {
    /// The objects in the store, by address.
    pub closed spec fn view(&self) -> Map<u64, T> {
        Map::new(
            |a: u64| 1 <= a <= self.slots@.len() && self.slots@[a - 1] is Some,
            |a: u64| *self.slots@[a - 1]->Some_0,
        )
    }

    /// How many objects are in the store.
    pub closed spec fn live(&self) -> nat {
        self.count as nat
    }

    /// Every address fits in 48 bits, and the slots that hold no object are
    /// listed once each for reuse.
    pub closed spec fn wf(&self) -> bool {
        &&& self.slots@.len() < ADDR_SPAN
        &&& self.count + self.vacant@.len() == self.slots@.len()
        &&& forall|i: int|
            0 <= i < self.vacant@.len() ==> (#[trigger] self.vacant@[i]) < self.slots@.len()
                && self.slots@[self.vacant@[i] as int] is None
        &&& forall|i: int, j: int|
            0 <= i < j < self.vacant@.len() ==> #[trigger] self.vacant@[i]
                != #[trigger] self.vacant@[j]
    }

    /// Every address in use is nonzero and fits in 48 bits, and the store
    /// holds fewer objects than there are addresses.
    pub proof fn lemma_addresses_bounded(&self)
        requires
            self.wf(),
        ensures
            self.live() < ADDR_SPAN,
            forall|a: u64| #[trigger] self@.contains_key(a) ==> 1 <= a < ADDR_SPAN,
    {
    }

    /// No object lives at address zero.
    pub proof fn lemma_nil_is_vacant(&self)
        ensures
            !self@.contains_key(0),
    {
    }

    /// Where the object at `addr` stands among the slots.
    fn index_of(&self, addr: u64) -> (i: usize)
        requires
            self@.contains_key(addr),
        ensures
            i == addr - 1,
            i < self.slots@.len(),
            self.slots@[i as int] is Some,
    {
        let n: usize = self.slots.len();
        assert(1 <= addr <= n);
        (addr - 1) as usize
    }

    /// The empty store.
    pub fn new() -> (r: Heap<T>)
        ensures
            r.wf(),
            r@ == Map::<u64, T>::empty(),
            r.live() == 0,
    {
        let r = Heap { slots: Vec::new(), vacant: Vec::new(), count: 0 };
        assert(r@ =~= Map::<u64, T>::empty());
        r
    }

    /// How many objects are in the store.
    pub fn len(&self) -> (n: usize)
        ensures
            n == self.live(),
    {
        self.count
    }

    /// Whether an object lives at `addr`.
    pub fn contains(&self, addr: u64) -> (r: bool)
        ensures
            r == self@.contains_key(addr),
    {
        if addr == 0 || addr - 1 >= self.slots.len() as u64 {
            false
        } else {
            self.slots[(addr - 1) as usize].is_some()
        }
    }

    /// Takes the object into the store and gives it an address that no
    /// object in the store has.
    pub fn adopt(&mut self, b: Box<T>) -> (addr: u64)
        requires
            old(self).wf(),
            old(self).live() + 1 < ADDR_SPAN,
        ensures
            final(self).wf(),
            addr != 0,
            addr < ADDR_SPAN,
            !old(self)@.contains_key(addr),
            final(self)@ == old(self)@.insert(addr, *b),
            final(self).live() == old(self).live() + 1,
    {
        match self.vacant.pop() {
            Some(i) => {
                assert(i == old(self).vacant@[old(self).vacant@.len() - 1]);
                let n: usize = self.slots.len();
                self.slots[i] = Some(b);
                self.count = self.count + 1;
                let addr: u64 = i as u64 + 1;
                assert(final(self)@ =~= old(self)@.insert(addr, *b));
                addr
            },
            None => {
                self.slots.push(Some(b));
                let n: usize = self.slots.len();
                self.count = self.count + 1;
                let addr: u64 = n as u64;
                assert(final(self)@ =~= old(self)@.insert(addr, *b));
                addr
            },
        }
    }

    /// Takes the object at `addr` out of the store, if there is one.
    pub fn release(&mut self, addr: u64) -> (b: Option<Box<T>>)
        requires
            old(self).wf(),
        ensures
            final(self).wf(),
            match b {
                Some(x) => {
                    &&& old(self)@.contains_key(addr)
                    &&& *x == old(self)@[addr]
                    &&& final(self).live() == old(self).live() - 1
                },
                None => !old(self)@.contains_key(addr) && final(self).live() == old(self).live(),
            },
            final(self)@ == old(self)@.remove(addr),
    {
        if addr == 0 || addr - 1 >= self.slots.len() as u64 {
            assert(final(self)@ =~= old(self)@.remove(addr));
            None
        } else {
            let i: usize = (addr - 1) as usize;
            let b = self.slots[i].take();
            if b.is_some() {
                self.vacant.push(i);
                proof {
                    lemma_distinct_bounded(self.vacant@, self.slots@.len());
                }
                self.count = self.count - 1;
            }
            assert(final(self)@ =~= old(self)@.remove(addr));
            b
        }
    }

    /// The object at `addr`.
    pub fn get(&self, addr: u64) -> (r: &T)
        requires
            self@.contains_key(addr),
        ensures
            *r == self@[addr],
    {
        let i: usize = self.index_of(addr);
        match &self.slots[i] {
            Some(b) => &**b,
            None => unreached(),
        }
    }

    /// The object at `addr`, to be changed in place.
    pub fn get_mut(&mut self, addr: u64) -> (r: &mut T)
        requires
            old(self)@.contains_key(addr),
        ensures
            *r == old(self)@[addr],
            final(self)@ == old(self)@.insert(addr, *final(r)),
            final(self).live() == old(self).live(),
            old(self).wf() ==> final(self).wf(),
    {
        let i: usize = self.index_of(addr);
        match &mut self.slots[i] {
            Some(b) => &mut **b,
            None => unreached(),
        }
    }
}

} // verus!
