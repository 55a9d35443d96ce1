use vstd::prelude::*;
use crate::frame::Frame;

verus! {

/// Bit of a present entry.
pub const PRESENT_BIT: u64 = 1;

/// Bit of a writable mapping.
pub const WRITABLE_BIT: u64 = 2;

/// Bit of an entry that maps a huge page instead of a child table.
pub const HUGE_PAGE_BIT: u64 = 0x80;

/// A combinable set of entry flags.
#[derive(Debug, Clone, Copy, PartialEq, Eq, Structural)]
pub struct EntryFlags {
    pub bits: u64,
}

/// Every bit of `b` is set in `a`.
pub open spec fn has_bits(a: u64, b: u64) -> bool {
    a & b == b
}

pub proof fn lemma_bits_facts(x: u64)
    ensures
        has_bits(x | PRESENT_BIT, PRESENT_BIT),
        !has_bits(0u64, PRESENT_BIT),
        !has_bits(0u64, HUGE_PAGE_BIT),
        has_bits(x | HUGE_PAGE_BIT, HUGE_PAGE_BIT),
        !has_bits(WRITABLE_BIT | PRESENT_BIT, HUGE_PAGE_BIT),
{
    assert((x | 1u64) & 1u64 == 1u64) by (bit_vector);
    assert(0u64 & 1u64 != 1u64) by (bit_vector);
    assert(0u64 & 0x80u64 != 0x80u64) by (bit_vector);
    assert((x | 0x80u64) & 0x80u64 == 0x80u64) by (bit_vector);
    assert((2u64 | 1u64) & 0x80u64 != 0x80u64) by (bit_vector);
}

impl EntryFlags {
    pub open spec fn contains_spec(self, other: EntryFlags) -> bool {
        has_bits(self.bits, other.bits)
    }

    pub fn empty() -> (r: EntryFlags)
        ensures
            r.bits == 0,
    {
        EntryFlags { bits: 0 }
    }

    pub fn present() -> (r: EntryFlags)
        ensures
            r.bits == PRESENT_BIT,
    {
        EntryFlags { bits: PRESENT_BIT }
    }

    pub fn writable() -> (r: EntryFlags)
        ensures
            r.bits == WRITABLE_BIT,
    {
        EntryFlags { bits: WRITABLE_BIT }
    }

    pub fn huge_page() -> (r: EntryFlags)
        ensures
            r.bits == HUGE_PAGE_BIT,
    {
        EntryFlags { bits: HUGE_PAGE_BIT }
    }

    pub fn union(self, other: EntryFlags) -> (r: EntryFlags)
        ensures
            r.bits == self.bits | other.bits,
    {
        EntryFlags { bits: self.bits | other.bits }
    }

    pub fn contains(&self, other: EntryFlags) -> (r: bool)
        ensures
            r == self.contains_spec(other),
    {
        self.bits & other.bits == other.bits
    }
}

/// One slot of a page table: a frame and a flag set. The frame means
/// nothing unless the entry is present.
#[derive(Debug, Clone, Copy, PartialEq, Eq, Structural)]
pub struct Entry {
    pub frame: Frame,
    pub flags: EntryFlags,
}

impl Entry {
    pub open spec fn is_present(self) -> bool {
        has_bits(self.flags.bits, PRESENT_BIT)
    }

    pub open spec fn is_huge(self) -> bool {
        has_bits(self.flags.bits, HUGE_PAGE_BIT)
    }

    /// An entry with no flags, which maps nothing.
    pub fn unused() -> (e: Entry)
        ensures
            !e.is_present(),
            !e.is_huge(),
            e.flags.bits == 0,
            e.frame@ == 0,
    {
        proof {
            lemma_bits_facts(0);
        }
        Entry { frame: Frame::containing_address(0), flags: EntryFlags::empty() }
    }

    pub fn present(&self) -> (r: bool)
        ensures
            r == self.is_present(),
    {
        self.flags.contains(EntryFlags::present())
    }

    pub fn huge(&self) -> (r: bool)
        ensures
            r == self.is_huge(),
    {
        self.flags.contains(EntryFlags::huge_page())
    }

    /// The frame, when the entry is present.
    pub fn pointed_frame(&self) -> (r: Option<Frame>)
        ensures
            r == (if self.is_present() { Some(self.frame) } else { None::<Frame> }),
    {
        if self.present() {
            Some(self.frame)
        } else {
            None
        }
    }

    /// An entry for `frame` with `flags` and the present bit.
    pub fn mapping(frame: Frame, flags: EntryFlags) -> (e: Entry)
        ensures
            e.frame == frame,
            e.flags.bits == flags.bits | PRESENT_BIT,
            e.is_present(),
    {
        proof {
            lemma_bits_facts(flags.bits);
        }
        Entry { frame, flags: flags.union(EntryFlags::present()) }
    }

    /// Points the entry at `frame` with `flags`, and marks it present.
    pub fn set(&mut self, frame: Frame, flags: EntryFlags)
        ensures
            final(self).frame == frame,
            final(self).flags.bits == flags.bits | PRESENT_BIT,
            final(self).is_present(),
    {
        *self = Entry::mapping(frame, flags);
    }

    /// Clears the entry.
    pub fn set_unused(&mut self)
        ensures
            !final(self).is_present(),
            final(self).flags.bits == 0,
    {
        *self = Entry::unused();
    }
}

} // verus!
