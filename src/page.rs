use vstd::prelude::*;

verus! {

/// Size of a page and of a frame, in bytes.
pub const PAGE_SIZE: u64 = 4096;

/// Number of entries in one page table.
pub const ENTRY_COUNT: usize = 512;

/// Largest page (or frame) number: the last one that starts below 2^64.
pub const MAX_NUMBER: u64 = 0xf_ffff_ffff_ffff;

pub type VirtualAddress = u64;

pub type PhysicalAddress = u64;

/// An address in the lower or upper canonical half of the 48-bit space.
pub open spec fn is_canonical(addr: int) -> bool {
    addr < 0x0000_8000_0000_0000 || addr >= 0xffff_8000_0000_0000
}

/// Index into the P4 table of page number `n`.
pub open spec fn p4_index_of(n: nat) -> nat {
    (n / 0x800_0000) % 512
}

/// Index into the P3 table of page number `n`.
pub open spec fn p3_index_of(n: nat) -> nat {
    (n / 0x4_0000) % 512
}

/// Index into the P2 table of page number `n`.
pub open spec fn p2_index_of(n: nat) -> nat {
    (n / 0x200) % 512
}

/// Index into the P1 table of page number `n`.
pub open spec fn p1_index_of(n: nat) -> nat {
    n % 512
}

/// A virtual page, identified by its page number.
#[derive(Debug, Clone, Copy, PartialEq, Eq, Structural)]
pub struct Page {
    number: u64,
}

impl View for Page {
    type V = nat;

    closed spec fn view(&self) -> nat {
        self.number as nat
    }
}

impl Page {
    #[verifier::type_invariant]
    spec fn inv(self) -> bool {
        self.number <= MAX_NUMBER
    }

    /// The page that holds `address`, which must be canonical.
    pub fn containing_address(address: VirtualAddress) -> (p: Page)
        requires
            is_canonical(address as int),
        ensures
            p@ == address as nat / PAGE_SIZE as nat,
    {
        Page { number: address / PAGE_SIZE }
    }

    pub fn number(&self) -> (r: u64)
        ensures
            r as nat == self@,
            r <= MAX_NUMBER,
    {
        proof {
            use_type_invariant(self);
        }
        self.number
    }

    pub fn start_address(&self) -> (r: VirtualAddress)
        ensures
            r as nat == self@ * PAGE_SIZE as nat,
    {
        proof {
            use_type_invariant(self);
        }
        self.number * PAGE_SIZE
    }

    pub fn p4_index(&self) -> (r: usize)
        ensures
            r as nat == p4_index_of(self@),
            r < ENTRY_COUNT,
    {
        ((self.number / 0x800_0000) % 512) as usize
    }

    pub fn p3_index(&self) -> (r: usize)
        ensures
            r as nat == p3_index_of(self@),
            r < ENTRY_COUNT,
    {
        ((self.number / 0x4_0000) % 512) as usize
    }

    pub fn p2_index(&self) -> (r: usize)
        ensures
            r as nat == p2_index_of(self@),
            r < ENTRY_COUNT,
    {
        ((self.number / 0x200) % 512) as usize
    }

    pub fn p1_index(&self) -> (r: usize)
        ensures
            r as nat == p1_index_of(self@),
            r < ENTRY_COUNT,
    {
        (self.number % 512) as usize
    }
}

/// The page that holds a canonical address starts at or below it, and the
/// address lies within one page size of that start.
pub proof fn lemma_containing_address_bounds(a: nat)
    requires
        is_canonical(a as int),
    ensures
        (a / PAGE_SIZE as nat) * PAGE_SIZE as nat <= a,
        a < (a / PAGE_SIZE as nat) * PAGE_SIZE as nat + PAGE_SIZE as nat,
{
    assert((a / 4096) * 4096 <= a && a < (a / 4096) * 4096 + 4096) by (nonlinear_arith);
}

/// Addresses in the gap between the canonical halves hold no page.
pub proof fn lemma_gap_not_canonical(a: int)
    requires
        0x0000_8000_0000_0000 <= a < 0xffff_8000_0000_0000,
    ensures
        !is_canonical(a),
{
}

} // verus!
