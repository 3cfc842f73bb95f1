//! A 64-bit cell that holds a 48-bit node address beside a 16-bit tag, with
//! compare-and-set on the whole word.

use crate::heap::Heap;
use vstd::prelude::*;

verus! {

/// Number of distinct addresses: an address is below this bound.
pub const ADDR_SPAN: u64 = 0x0001_0000_0000_0000;

/// The bits of a word that hold the address.
pub const ADDR_MASK: u64 = 0x0000_ffff_ffff_ffff;

/// The address held in the low 48 bits of `raw`.
pub open spec fn word_addr(raw: u64) -> u64 {
    (raw as int % 0x0001_0000_0000_0000) as u64
}

/// The tag held in the high 16 bits of `raw`.
pub open spec fn word_tag(raw: u64) -> u16 {
    (raw as int / 0x0001_0000_0000_0000) as u16
}

/// The word whose address is `addr` and whose tag is `tag`.
pub open spec fn pack(addr: u64, tag: u16) -> u64
    recommends
        addr < ADDR_SPAN,
{
    (tag as int * 0x0001_0000_0000_0000 + addr as int) as u64
}

/// The tag that follows `tag`: one more, and zero after the largest.
pub open spec fn next_tag(tag: u16) -> u16 {
    if tag == 0xffff {
        0
    } else {
        (tag + 1) as u16
    }
}

/// The tag that is reached from `tag` in `steps` steps.
pub open spec fn advance_tag(tag: u16, steps: nat) -> u16 {
    ((tag as int + steps as int) % 0x1_0000) as u16
}

/// A non-owning reference to an object in a store: an address and a tag in
/// one word.
#[derive(PartialEq, Eq, Structural)]
pub struct TaggedPtr {
    raw: u64,
}

impl TaggedPtr {
    /// The whole word.
    pub closed spec fn word(&self) -> u64 {
        self.raw
    }

    /// Two cells with the same address and the same tag are the same value.
    pub proof fn lemma_parts_decide(&self, other: &TaggedPtr)
        requires
            self.addr() == other.addr(),
            self.tag() == other.tag(),
        ensures
            *self == *other,
    {
        lemma_word_parts(self.word());
        lemma_word_parts(other.word());
    }

    /// The address part of the word.
    pub open spec fn addr(&self) -> u64 {
        word_addr(self.word())
    }

    /// The tag part of the word.
    pub open spec fn tag(&self) -> u16 {
        word_tag(self.word())
    }

    /// The reference to nothing, with tag zero.
    pub fn nil() -> (r: TaggedPtr)
        ensures
            r.word() == 0,
            r.addr() == 0,
            r.tag() == 0,
    {
        TaggedPtr { raw: 0 }
    }

    /// The cell that holds `raw`.
    pub fn from_raw(raw: u64) -> (r: TaggedPtr)
        ensures
            r.word() == raw,
    {
        TaggedPtr { raw }
    }

    /// Hands the object over to `heap` and refers to it, with tag zero.
    pub fn from_box<T>(b: Box<T>, heap: &mut Heap<T>) -> (r: TaggedPtr)
        requires
            old(heap).wf(),
            old(heap).live() + 1 < ADDR_SPAN,
        ensures
            final(heap).wf(),
            r.addr() != 0,
            r.addr() == r.word(),
            r.tag() == 0,
            !old(heap)@.contains_key(r.addr()),
            final(heap)@ == old(heap)@.insert(r.addr(), *b),
            final(heap).live() == old(heap).live() + 1,
    {
        let addr: u64 = heap.adopt(b);
        TaggedPtr { raw: addr }
    }

    /// Takes the object that this refers to back out of `heap` and clears the
    /// cell; `None`, and nothing changed, where this is nil.
    pub fn to_box<T>(&mut self, heap: &mut Heap<T>) -> (b: Option<Box<T>>)
        requires
            old(heap).wf(),
            old(self).addr() != 0 ==> old(heap)@.contains_key(old(self).addr()),
        ensures
            final(heap).wf(),
            match b {
                None => {
                    &&& old(self).addr() == 0
                    &&& *final(self) == *old(self)
                    &&& final(heap)@ == old(heap)@
                    &&& final(heap).live() == old(heap).live()
                },
                Some(x) => {
                    &&& old(self).addr() != 0
                    &&& *x == old(heap)@[old(self).addr()]
                    &&& final(self).word() == 0
                    &&& final(heap)@ == old(heap)@.remove(old(self).addr())
                    &&& final(heap).live() == old(heap).live() - 1
                },
            },
    {
        if self.is_nil() {
            None
        } else {
            let addr: u64 = self.get();
            self.set(0);
            heap.release(addr)
        }
    }

    /// Whether the address part is zero, whatever the tag.
    pub fn is_nil(&self) -> (r: bool)
        ensures
            r == (self.addr() == 0),
    {
        self.get() == 0
    }

    /// Replaces the whole word.
    pub fn set(&mut self, raw: u64)
        ensures
            final(self).word() == raw,
    {
        self.raw = raw;
    }

    /// The address part.
    pub fn get(&self) -> (r: u64)
        ensures
            r == self.addr(),
            r < ADDR_SPAN,
    {
        let raw: u64 = self.raw;
        assert(raw & 0x0000_ffff_ffff_ffff == raw % 0x0001_0000_0000_0000) by (bit_vector);
        raw & ADDR_MASK
    }

    /// The whole word.
    pub fn to_u64(&self) -> (r: u64)
        ensures
            r == self.word(),
    {
        self.value()
    }

    /// The tag part.
    pub fn get_tag(&self) -> (r: u16)
        ensures
            r == self.tag(),
    {
        let raw: u64 = self.raw;
        assert(raw >> 48 == raw / 0x0001_0000_0000_0000) by (bit_vector);
        (raw >> 48) as u16
    }

    /// Replaces the tag and keeps the address.
    pub fn set_tag(&mut self, tag: u16)
        ensures
            final(self).word() == pack(old(self).addr(), tag),
            final(self).addr() == old(self).addr(),
            final(self).tag() == tag,
    {
        let addr: u64 = self.get();
        let high: u64 = (tag as u64) << 48;
        let raw: u64 = addr | high;
        proof {
            lemma_pack_bits(addr, tag);
            lemma_pack_parts(addr, tag);
        }
        self.raw = raw;
    }

    /// The whole word.
    pub fn value(&self) -> (r: u64)
        ensures
            r == self.word(),
    {
        self.raw
    }

    /// Advances the tag by one, from the largest tag to zero, and keeps the
    /// address.
    pub fn increment_tag(&mut self)
        ensures
            final(self).word() == pack(old(self).addr(), next_tag(old(self).tag())),
            final(self).addr() == old(self).addr(),
            final(self).tag() == next_tag(old(self).tag()),
    {
        let tag: u16 = self.get_tag();
        self.set_tag(tag.wrapping_add(1));
    }

    /// Installs the word of `desired` if the cell holds the word of
    /// `expected`, and says whether it did.
    pub fn compare_and_set(&mut self, expected: &TaggedPtr, desired: &TaggedPtr) -> (installed:
        bool)
        ensures
            installed == (old(self).word() == expected.word()),
            *final(self) == (if installed {
                *desired
            } else {
                *old(self)
            }),
    {
        if self.raw == expected.raw {
            self.raw = desired.raw;
            true
        } else {
            false
        }
    }
}

impl Clone for TaggedPtr {
    /// A second cell that holds the same word.
    fn clone(&self) -> (r: Self)
        ensures
            r == *self,
    {
        TaggedPtr { raw: self.raw }
    }
}

/// In a word put together by bit operations the address and the tag lie side
/// by side, as in `pack`.
pub proof fn lemma_pack_bits(addr: u64, tag: u16)
    requires
        addr < ADDR_SPAN,
    ensures
        addr | ((tag as u64) << 48) == pack(addr, tag),
{
    let high: u64 = tag as u64;
    assert(high <= 0xffff);
    assert(addr | (high << 48) == high * 0x0001_0000_0000_0000 + addr) by (bit_vector)
        requires
            addr < 0x0001_0000_0000_0000,
            high <= 0xffff,
    ;
}

/// A word is its tag and its address side by side, and the address is below
/// the bound.
pub proof fn lemma_word_parts(raw: u64)
    ensures
        word_addr(raw) < ADDR_SPAN,
        raw == pack(word_addr(raw), word_tag(raw)),
{
    let r: int = raw as int;
    assert(0 <= r % 0x0001_0000_0000_0000 < 0x0001_0000_0000_0000 && 0 <= r
        / 0x0001_0000_0000_0000 <= 0xffff && r == (r / 0x0001_0000_0000_0000)
        * 0x0001_0000_0000_0000 + r % 0x0001_0000_0000_0000) by (nonlinear_arith)
        requires
            0 <= r <= 0xffff_ffff_ffff_ffff,
    ;
}

/// No step at all leaves the tag as it is, one step leads to the next tag,
/// and steps add up.
pub proof fn lemma_advance_tag(tag: u16, a: nat, b: nat)
    ensures
        advance_tag(tag, 0) == tag,
        advance_tag(tag, 1) == next_tag(tag),
        advance_tag(advance_tag(tag, a), b) == advance_tag(tag, a + b),
{
    let t: int = tag as int;
    assert((((t + a) % 0x1_0000) + b) % 0x1_0000 == (t + a + b) % 0x1_0000) by (nonlinear_arith)
        requires
            0 <= t,
    ;
}

/// Within fewer than 2^16 steps the tag never comes back to where it was:
/// a cell whose tag advanced cannot be taken for the cell as it was. Until
/// it passes the largest tag it grows with every step.
pub proof fn lemma_tag_window(tag: u16, steps: nat)
    requires
        0 < steps < 0x1_0000,
    ensures
        advance_tag(tag, steps) != tag,
        tag + steps <= 0xffff ==> advance_tag(tag, steps) == tag + steps,
        tag < 0xffff ==> next_tag(tag) > tag,
{
}

/// A packed word gives back the address and the tag it was made of.
pub proof fn lemma_pack_parts(addr: u64, tag: u16)
    requires
        addr < ADDR_SPAN,
    ensures
        word_addr(pack(addr, tag)) == addr,
        word_tag(pack(addr, tag)) == tag,
        pack(addr, tag) as int == tag as int * ADDR_SPAN as int + addr as int,
{
    assert(tag as int * 0x0001_0000_0000_0000 + addr as int <= u64::MAX) by (nonlinear_arith)
        requires
            tag <= 0xffff,
            addr < 0x0001_0000_0000_0000,
    ;
    let w: int = tag as int * 0x0001_0000_0000_0000 + addr as int;
    assert(w % 0x0001_0000_0000_0000 == addr as int && w / 0x0001_0000_0000_0000 == tag as int)
        by (nonlinear_arith)
        requires
            w == tag as int * 0x0001_0000_0000_0000 + addr as int,
            0 <= addr < 0x0001_0000_0000_0000,
    ;
}

} // verus!
