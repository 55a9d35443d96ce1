use vstd::prelude::*;
use crate::entry::Entry;
use crate::page::{ENTRY_COUNT, MAX_NUMBER};

verus! {

/// Physical memory as a run of frames, each read as a page table of
/// `ENTRY_COUNT` entries.
pub struct PhysicalMemory {
    entries: Vec<Entry>,
    frames: usize,
}

pub proof fn lemma_slot_in_range(f: int, i: int, n: int)
    requires
        0 <= f < n,
        0 <= i < 512,
    ensures
        0 <= f * 512 + i < n * 512,
{
    assert(0 <= f * 512 + i < n * 512) by (nonlinear_arith)
        requires
            0 <= f < n,
            0 <= i < 512,
    ;
}

pub proof fn lemma_slot_distinct(f: int, i: int, g: int, j: int)
    requires
        0 <= i < 512,
        0 <= j < 512,
        f != g || i != j,
    ensures
        f * 512 + i != g * 512 + j,
{
    assert(f * 512 + i != g * 512 + j) by (nonlinear_arith)
        requires
            0 <= i < 512,
            0 <= j < 512,
            f != g || i != j,
    ;
}

impl PhysicalMemory {
    /// Number of frames.
    pub closed spec fn frames(&self) -> nat {
        self.frames as nat
    }

    /// Entry `i` of the table held by frame `f`.
    pub closed spec fn entry(&self, f: int, i: int) -> Entry {
        self.entries@[f * 512 + i]
    }

    pub closed spec fn wf(&self) -> bool {
        &&& self.entries@.len() == self.frames * 512
        &&& self.frames * 512 <= usize::MAX
        &&& self.frames <= MAX_NUMBER + 1
    }

    /// Every slot index fits in a `usize`, and every frame number in a
    /// `Frame`.
    pub proof fn lemma_frames_bound(&self)
        requires
            self.wf(),
        ensures
            self.frames() * 512 <= usize::MAX,
            self.frames() <= MAX_NUMBER + 1,
    {
    }

    /// `count` frames whose entries are all unused.
    pub fn new(count: usize) -> (m: PhysicalMemory)
        requires
            count * 512 <= usize::MAX,
            count <= MAX_NUMBER + 1,
        ensures
            m.wf(),
            m.frames() == count,
            forall|f: int, i: int|
                0 <= f < count && 0 <= i < 512 ==> !(#[trigger] m.entry(f, i)).is_present(),
    {
        let total: usize = count * ENTRY_COUNT;
        let mut entries: Vec<Entry> = Vec::new();
        let mut k: usize = 0;
        while k < total
            invariant
                k <= total,
                total == count * 512,
                entries@.len() == k,
                forall|j: int| 0 <= j < k ==> !(#[trigger] entries@[j]).is_present(),
            decreases total - k,
        {
            entries.push(Entry::unused());
            k = k + 1;
        }
        let m = PhysicalMemory { entries, frames: count };
        assert forall|f: int, i: int| 0 <= f < count && 0 <= i < 512 implies !(
        #[trigger] m.entry(f, i)).is_present() by {
            lemma_slot_in_range(f, i, count as int);
        }
        m
    }

    pub fn frame_count(&self) -> (r: usize)
        ensures
            r == self.frames(),
    {
        self.frames
    }

    pub fn read(&self, f: usize, i: usize) -> (e: Entry)
        requires
            self.wf(),
            f < self.frames(),
            i < 512,
        ensures
            e == self.entry(f as int, i as int),
    {
        proof {
            lemma_slot_in_range(f as int, i as int, self.frames as int);
        }
        self.entries[f * ENTRY_COUNT + i]
    }

    pub fn write(&mut self, f: usize, i: usize, e: Entry)
        requires
            old(self).wf(),
            f < old(self).frames(),
            i < 512,
        ensures
            final(self).wf(),
            final(self).frames() == old(self).frames(),
            final(self).entry(f as int, i as int) == e,
            forall|g: int, j: int|
                0 <= g < old(self).frames() && 0 <= j < 512 && (g != f || j != i) ==> #[trigger] final(self).entry(g, j)
                    == old(self).entry(g, j),
    {
        proof {
            lemma_slot_in_range(f as int, i as int, self.frames as int);
        }
        self.entries.set(f * ENTRY_COUNT + i, e);
        assert forall|g: int, j: int|
            0 <= g < old(self).frames() && 0 <= j < 512 && (g != f || j != i) implies #[trigger] self.entry(g, j) == old(
            self,
        ).entry(g, j) by {
            lemma_slot_distinct(f as int, i as int, g, j);
            lemma_slot_in_range(g, j, self.frames as int);
        }
    }

    /// Clears every entry of frame `f`.
    pub fn zero(&mut self, f: usize)
        requires
            old(self).wf(),
            f < old(self).frames(),
        ensures
            final(self).wf(),
            final(self).frames() == old(self).frames(),
            forall|i: int|
                0 <= i < 512 ==> (#[trigger] final(self).entry(f as int, i)).flags.bits == 0
                    && final(self).entry(f as int, i).frame@ == 0,
            forall|g: int, j: int|
                0 <= g < old(self).frames() && 0 <= j < 512 && g != f ==> #[trigger] final(self).entry(g, j) == old(self).entry(g, j),
    {
        let mut i: usize = 0;
        while i < ENTRY_COUNT
            invariant
                self.wf(),
                self.frames() == old(self).frames(),
                f < self.frames(),
                i <= 512,
                forall|k: int|
                    0 <= k < i ==> (#[trigger] self.entry(f as int, k)).flags.bits == 0 && self.entry(
                        f as int,
                        k,
                    ).frame@ == 0,
                forall|g: int, j: int|
                    0 <= g < old(self).frames() && 0 <= j < 512 && g != f ==> #[trigger] self.entry(g, j) == old(self).entry(g, j),
            decreases 512 - i,
        {
            self.write(f, i, Entry::unused());
            i = i + 1;
        }
    }
}

} // verus!
