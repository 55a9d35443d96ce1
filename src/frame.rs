use vstd::prelude::*;
use crate::page::{PhysicalAddress, MAX_NUMBER, PAGE_SIZE};

verus! {

/// A physical frame, identified by its frame number.
#[derive(Debug, Clone, Copy, PartialEq, Eq, Structural)]
pub struct Frame {
    number: u64,
}

impl View for Frame {
    type V = nat;

    closed spec fn view(&self) -> nat {
        self.number as nat
    }
}

impl Frame {
    #[verifier::type_invariant]
    spec fn inv(self) -> bool {
        self.number <= MAX_NUMBER
    }

    /// The frame that holds physical address `address`.
    pub fn containing_address(address: PhysicalAddress) -> (f: Frame)
        ensures
            f@ == address as nat / PAGE_SIZE as nat,
    {
        Frame { number: address / PAGE_SIZE }
    }

    /// The frame with number `number`, which must fit below 2^52.
    pub fn from_number(number: u64) -> (f: Frame)
        requires
            number <= MAX_NUMBER,
        ensures
            f@ == number as nat,
    {
        Frame { number }
    }

    pub fn number(&self) -> (r: u64)
        ensures
            r as nat == self@,
            r <= MAX_NUMBER,
    {
        proof {
            use_type_invariant(self);
        }
        self.number
    }

    pub fn start_address(&self) -> (r: PhysicalAddress)
        ensures
            r as nat == self@ * PAGE_SIZE as nat,
    {
        proof {
            use_type_invariant(self);
        }
        self.number * PAGE_SIZE
    }
}

/// A pool of free frames handed out last in, first out.
pub struct FramePool {
    free: Vec<Frame>,
}

impl View for FramePool {
    type V = Seq<Frame>;

    closed spec fn view(&self) -> Seq<Frame> {
        self.free@
    }
}

impl FramePool {
    /// A pool that holds `frames`; the last one is handed out first.
    pub fn new(frames: Vec<Frame>) -> (p: FramePool)
        ensures
            p@ == frames@,
    {
        FramePool { free: frames }
    }

    pub fn len(&self) -> (r: usize)
        ensures
            r == self@.len(),
    {
        self.free.len()
    }

    /// Takes a free frame, or `None` when the pool is exhausted.
    pub fn allocate_frame(&mut self) -> (r: Option<Frame>)
        ensures
            old(self)@.len() == 0 ==> r.is_none() && final(self)@ == old(self)@,
            old(self)@.len() > 0 ==> r == Some(old(self)@.last())
                && final(self)@ == old(self)@.drop_last(),
    {
        self.free.pop()
    }

    /// Gives a frame back to the pool.
    pub fn deallocate_frame(&mut self, frame: Frame)
        ensures
            final(self)@ == old(self)@.push(frame),
    {
        self.free.push(frame);
    }
}

} // verus!
