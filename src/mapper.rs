use vstd::prelude::*;
use crate::entry::{lemma_bits_facts, Entry, EntryFlags, PRESENT_BIT, WRITABLE_BIT};
use crate::frame::{Frame, FramePool};
use crate::memory::PhysicalMemory;
use crate::page::{
    is_canonical, p1_index_of, p2_index_of, p3_index_of, p4_index_of, Page, PhysicalAddress,
    VirtualAddress, MAX_NUMBER, PAGE_SIZE,
};

verus! {

/// Index of the P4 slot that maps the P4 table onto itself.
pub const RECURSIVE_INDEX: usize = 511;

/// Why a mapping was refused.
#[derive(Debug, Clone, Copy, PartialEq, Eq, Structural)]
pub enum MapError {
    /// The allocator ran out of frames for the missing tables.
    OutOfFrames,
    /// The page is mapped already.
    AlreadyMapped,
    /// A table on the way is a huge page, or lies outside physical memory.
    HugePage,
}

/// The child table that entry `i` of table `f` leads to: present, not a
/// huge page, and inside physical memory.
pub open spec fn next_table(m: PhysicalMemory, f: int, i: int) -> Option<int> {
    let e = m.entry(f, i);
    if e.is_present() && !e.is_huge() && e.frame@ < m.frames() {
        Some(e.frame@ as int)
    } else {
        None
    }
}

/// Some present entry of some table points at frame `g`.
pub open spec fn referenced(m: PhysicalMemory, g: int) -> bool {
    exists|f: int, i: int|
        0 <= f < m.frames() && 0 <= i < 512 && (#[trigger] m.entry(f, i)).is_present() && m.entry(
            f,
            i,
        ).frame@ == g
}

/// The frame number that page number `n` maps to, walking down from the
/// P4 table held by frame `p4`.
pub open spec fn translate_page_in(m: PhysicalMemory, p4: int, n: nat) -> Option<nat> {
    match next_table(m, p4, p4_index_of(n) as int) {
        None => None,
        Some(p3) => {
            let e3 = m.entry(p3, p3_index_of(n) as int);
            if e3.is_present() && e3.is_huge() {
                if e3.frame@ % 0x4_0000 == 0 {
                    Some(e3.frame@ + p2_index_of(n) * 512 + p1_index_of(n))
                } else {
                    None
                }
            } else {
                match next_table(m, p3, p3_index_of(n) as int) {
                    None => None,
                    Some(p2) => {
                        let e2 = m.entry(p2, p2_index_of(n) as int);
                        if e2.is_present() && e2.is_huge() {
                            if e2.frame@ % 512 == 0 {
                                Some(e2.frame@ + p1_index_of(n))
                            } else {
                                None
                            }
                        } else {
                            match next_table(m, p2, p2_index_of(n) as int) {
                                None => None,
                                Some(p1) => {
                                    let e1 = m.entry(p1, p1_index_of(n) as int);
                                    if e1.is_present() {
                                        Some(e1.frame@)
                                    } else {
                                        None
                                    }
                                },
                            }
                        }
                    },
                }
            }
        },
    }
}

/// The P1 table of page number `n` below the P4 table `p4`, when every
/// level on the way is an ordinary table.
pub open spec fn p1_table_in(m: PhysicalMemory, p4: int, n: nat) -> Option<int> {
    match next_table(m, p4, p4_index_of(n) as int) {
        None => None,
        Some(p3) => match next_table(m, p3, p3_index_of(n) as int) {
            None => None,
            Some(p2) => next_table(m, p2, p2_index_of(n) as int),
        },
    }
}

/// What mapping page number `n` below `p4` takes: the number of tables to
/// create, or the error that stops it before any change.
pub open spec fn map_plan(m: PhysicalMemory, p4: int, n: nat) -> Result<nat, MapError> {
    let (i4, i3, i2, i1) = (
        p4_index_of(n) as int,
        p3_index_of(n) as int,
        p2_index_of(n) as int,
        p1_index_of(n) as int,
    );
    if !m.entry(p4, i4).is_present() {
        Ok(3)
    } else {
        match next_table(m, p4, i4) {
            None => Err(MapError::HugePage),
            Some(p3) => if !m.entry(p3, i3).is_present() {
                Ok(2)
            } else {
                match next_table(m, p3, i3) {
                    None => Err(MapError::HugePage),
                    Some(p2) => if !m.entry(p2, i2).is_present() {
                        Ok(1)
                    } else {
                        match next_table(m, p2, i2) {
                            None => Err(MapError::HugePage),
                            Some(p1) => if m.entry(p1, i1).is_present() {
                                Err(MapError::AlreadyMapped)
                            } else {
                                Ok(0)
                            },
                        }
                    },
                }
            },
        }
    }
}

/// Frame `g` holds one of the P3, P2 or P1 tables on the walk of page
/// number `n` below `p4`.
pub open spec fn on_walk(m: PhysicalMemory, p4: int, n: nat, g: int) -> bool {
    let (i4, i3, i2) = (p4_index_of(n) as int, p3_index_of(n) as int, p2_index_of(n) as int);
    match next_table(m, p4, i4) {
        None => false,
        Some(p3) => p3 == g || match next_table(m, p3, i3) {
            None => false,
            Some(p2) => p2 == g || next_table(m, p2, i2) == Some(g),
        },
    }
}

/// Frame `g` was in use as a table, or among the free frames `pool`.
pub open spec fn used_or_free(m: PhysicalMemory, pool: Seq<Frame>, g: int) -> bool {
    referenced(m, g) || exists|k: int| 0 <= k < pool.len() && (#[trigger] pool[k])@ == g
}

/// Frame `g` is among the last `k` frames of `pool`, the ones handed out
/// first.
pub open spec fn taken(pool: Seq<Frame>, k: nat, g: int) -> bool {
    exists|q: int| pool.len() - k <= q < pool.len() && (#[trigger] pool[q])@ == g
}

/// The frame numbers of an optional frame.
pub open spec fn frame_number(r: Option<Frame>) -> Option<nat> {
    match r {
        Some(f) => Some(f@),
        None => None,
    }
}

proof fn lemma_aligned_room(s: nat, a: nat, x: nat)
    requires
        a == 512 || a == 0x4_0000,
        s % a == 0,
        s <= MAX_NUMBER,
        x < a,
    ensures
        s + x <= MAX_NUMBER,
{
    let k = s / a;
    assert(s == a * k) by (nonlinear_arith)
        requires
            s % a == 0,
            k == s / a,
            a > 0,
    ;
    if a == 512 {
        assert(k <= 0x7ff_ffff_ffff) by (nonlinear_arith)
            requires
                s == 512 * k,
                s <= MAX_NUMBER,
        ;
        assert(s + x <= MAX_NUMBER) by (nonlinear_arith)
            requires
                s == 512 * k,
                k <= 0x7ff_ffff_ffff,
                x < 512,
        ;
    } else {
        assert(k <= 0x3_ffff_ffff) by (nonlinear_arith)
            requires
                s == 0x4_0000 * k,
                s <= MAX_NUMBER,
        ;
        assert(s + x <= MAX_NUMBER) by (nonlinear_arith)
            requires
                s == 0x4_0000 * k,
                k <= 0x3_ffff_ffff,
                x < 0x4_0000,
        ;
    }
}

proof fn lemma_address_room(f: nat, o: nat)
    requires
        f <= MAX_NUMBER,
        o < 4096,
    ensures
        f * 4096 + o <= u64::MAX,
{
    assert(f * 4096 + o <= u64::MAX) by (nonlinear_arith)
        requires
            f <= MAX_NUMBER,
            o < 4096,
    ;
}

/// The page tables of one address space, reached through the recursive
/// slot of the table whose frame the root register holds.
pub struct Mapper {
    mem: PhysicalMemory,
    root: usize,
}

impl Mapper {
    /// Physical memory, tables included.
    pub closed spec fn memory(&self) -> PhysicalMemory {
        self.mem
    }

    /// The frame held by the root register.
    pub closed spec fn root_frame(&self) -> int {
        self.root as int
    }

    /// The P4 table as software sees it: where the recursive slot points.
    pub open spec fn p4(&self) -> int {
        next_table(self.memory(), self.root_frame(), RECURSIVE_INDEX as int)->0
    }

    pub open spec fn wf(&self) -> bool {
        &&& self.memory().wf()
        &&& 0 <= self.root_frame() < self.memory().frames()
        &&& next_table(self.memory(), self.root_frame(), RECURSIVE_INDEX as int) is Some
    }

    /// The frame number page number `n` maps to.
    pub open spec fn translate_page_spec(&self, n: nat) -> Option<nat> {
        translate_page_in(self.memory(), self.p4(), n)
    }

    /// The physical address virtual address `a` maps to.
    pub open spec fn translate_spec(&self, a: nat) -> Option<nat> {
        match self.translate_page_spec(a / 4096) {
            Some(f) => Some(f * 4096 + a % 4096),
            None => None,
        }
    }

    /// The frames of `pool` are free: distinct, inside physical memory, not
    /// the root frame, and not pointed at by any present entry.
    pub open spec fn pool_fresh(&self, pool: Seq<Frame>) -> bool {
        &&& forall|a: int, b: int| 0 <= a < b < pool.len() ==> pool[a]@ != pool[b]@
        &&& forall|k: int|
            0 <= k < pool.len() ==> {
                &&& pool[k]@ < self.memory().frames()
                &&& pool[k]@ != self.root_frame()
                &&& !referenced(self.memory(), pool[k]@ as int)
            }
    }

    /// The outcome `map_to` owes for page number `n` with `free` frames in
    /// the allocator.
    pub open spec fn map_to_result(&self, n: nat, free: nat) -> Result<(), MapError> {
        match map_plan(self.memory(), self.p4(), n) {
            Err(e) => Err(e),
            Ok(k) => if free < k {
                Err(MapError::OutOfFrames)
            } else {
                Ok(())
            },
        }
    }

    /// A mapper over `mem` whose root register holds frame `root`.
    pub fn new(mem: PhysicalMemory, root: usize) -> (r: Mapper)
        requires
            mem.wf(),
            root < mem.frames(),
            next_table(mem, root as int, RECURSIVE_INDEX as int) is Some,
        ensures
            r.wf(),
            r.memory() == mem,
            r.root_frame() == root,
    {
        Mapper { mem, root }
    }

    pub fn memory_ref(&self) -> (r: &PhysicalMemory)
        ensures
            *r == self.memory(),
    {
        &self.mem
    }

    pub fn root(&self) -> (r: usize)
        ensures
            r == self.root_frame(),
    {
        self.root
    }

    /// The child table of entry `i` of table `f`.
    pub fn next_table(&self, f: usize, i: usize) -> (r: Option<usize>)
        requires
            self.memory().wf(),
            f < self.memory().frames(),
            i < 512,
        ensures
            r matches Some(c) ==> next_table(self.memory(), f as int, i as int) == Some(c as int),
            r is None ==> next_table(self.memory(), f as int, i as int) is None,
    {
        let e = self.mem.read(f, i);
        if e.present() && !e.huge() && e.frame.number() < self.mem.frame_count() as u64 {
            Some(e.frame.number() as usize)
        } else {
            None
        }
    }

    fn p4_frame(&self) -> (r: usize)
        requires
            self.wf(),
        ensures
            r == self.p4(),
            r < self.memory().frames(),
    {
        self.next_table(self.root, RECURSIVE_INDEX).unwrap()
    }

    /// The frame that `page` maps to.
    pub fn translate_page(&self, page: Page) -> (r: Option<Frame>)
        requires
            self.wf(),
        ensures
            frame_number(r) == self.translate_page_spec(page@),
    {
        let p4 = self.p4_frame();
        let p3 = match self.next_table(p4, page.p4_index()) {
            Some(p3) => p3,
            None => return None,
        };
        let e3 = self.mem.read(p3, page.p3_index());
        if e3.present() && e3.huge() {
            let start = e3.frame.number();
            if start % 0x4_0000 == 0 {
                proof {
                    lemma_aligned_room(start as nat, 0x4_0000, p2_index_of(page@) * 512 + p1_index_of(page@));
                }
                let n = start + (page.p2_index() as u64) * 512 + page.p1_index() as u64;
                return Some(Frame::from_number(n));
            } else {
                return None;
            }
        }
        let p2 = match self.next_table(p3, page.p3_index()) {
            Some(p2) => p2,
            None => return None,
        };
        let e2 = self.mem.read(p2, page.p2_index());
        if e2.present() && e2.huge() {
            let start = e2.frame.number();
            if start % 512 == 0 {
                proof {
                    lemma_aligned_room(start as nat, 512, p1_index_of(page@));
                }
                return Some(Frame::from_number(start + page.p1_index() as u64));
            } else {
                return None;
            }
        }
        let p1 = match self.next_table(p2, page.p2_index()) {
            Some(p1) => p1,
            None => return None,
        };
        self.mem.read(p1, page.p1_index()).pointed_frame()
    }

    /// The physical address that `virtual_address` maps to.
    pub fn translate(&self, virtual_address: VirtualAddress) -> (r: Option<PhysicalAddress>)
        requires
            self.wf(),
            is_canonical(virtual_address as int),
        ensures
            match r {
                Some(a) => self.translate_spec(virtual_address as nat) == Some(a as nat),
                None => self.translate_spec(virtual_address as nat) is None,
            },
    {
        let offset = virtual_address % PAGE_SIZE;
        match self.translate_page(Page::containing_address(virtual_address)) {
            Some(frame) => {
                let n = frame.number();
                proof {
                    lemma_address_room(frame@, offset as nat);
                }
                Some(n * PAGE_SIZE + offset)
            },
            None => None,
        }
    }
}

impl Mapper {
    /// Reads the path of `page` without changing anything, and tells how
    /// many tables a mapping would create, or why it cannot be made.
    pub fn plan(&self, page: Page) -> (r: Result<usize, MapError>)
        requires
            self.wf(),
        ensures
            match r {
                Ok(k) => map_plan(self.memory(), self.p4(), page@) == Ok::<nat, MapError>(k as nat),
                Err(e) => map_plan(self.memory(), self.p4(), page@) == Err::<nat, MapError>(e),
            },
            r matches Ok(k) ==> k <= 3,
    {
        let p4 = self.p4_frame();
        if !self.mem.read(p4, page.p4_index()).present() {
            return Ok(3);
        }
        let p3 = match self.next_table(p4, page.p4_index()) {
            Some(p3) => p3,
            None => return Err(MapError::HugePage),
        };
        if !self.mem.read(p3, page.p3_index()).present() {
            return Ok(2);
        }
        let p2 = match self.next_table(p3, page.p3_index()) {
            Some(p2) => p2,
            None => return Err(MapError::HugePage),
        };
        if !self.mem.read(p2, page.p2_index()).present() {
            return Ok(1);
        }
        let p1 = match self.next_table(p2, page.p2_index()) {
            Some(p1) => p1,
            None => return Err(MapError::HugePage),
        };
        if self.mem.read(p1, page.p1_index()).present() {
            Err(MapError::AlreadyMapped)
        } else {
            Ok(0)
        }
    }

    /// The child table of entry `i` of table `f`; when the entry is empty,
    /// a frame from the allocator is cleared and becomes that child.
    fn next_table_create(&mut self, f: usize, i: usize, allocator: &mut FramePool) -> (c: usize)
        requires
            old(self).wf(),
            f < old(self).memory().frames(),
            i < 512,
            referenced(old(self).memory(), f as int),
            !old(self).memory().entry(f as int, i as int).is_present() || next_table(
                old(self).memory(),
                f as int,
                i as int,
            ) is Some,
            !old(self).memory().entry(f as int, i as int).is_present() ==> old(allocator)@.len() >= 1,
            old(self).pool_fresh(old(allocator)@),
        ensures
            final(self).wf(),
            final(self).root_frame() == old(self).root_frame(),
            final(self).memory().frames() == old(self).memory().frames(),
            c < old(self).memory().frames(),
            next_table(final(self).memory(), f as int, i as int) == Some(c as int),
            final(self).pool_fresh(final(allocator)@),
            final(self).p4() == old(self).p4(),
            forall|g: int, j: int|
                0 <= g < old(self).memory().frames() && 0 <= j < 512 && referenced(
                    old(self).memory(),
                    g,
                ) && old(self).memory().entry(g, j).is_present()
                    ==> #[trigger] final(self).memory().entry(g, j) == old(self).memory().entry(g, j),
            old(self).memory().entry(f as int, i as int).is_present() ==> {
                &&& *final(self) == *old(self)
                &&& *final(allocator) == *old(allocator)
            },
            !old(self).memory().entry(f as int, i as int).is_present() ==> {
                &&& c == old(allocator)@.last()@
                &&& final(allocator)@ == old(allocator)@.drop_last()
                &&& c != old(self).root_frame()
                &&& !referenced(old(self).memory(), c as int)
                &&& forall|j: int|
                    0 <= j < 512 ==> !(#[trigger] final(self).memory().entry(c as int, j)).is_present()
                &&& forall|g: int, j: int|
                    0 <= g < old(self).memory().frames() && 0 <= j < 512 && g != c && (g != f || j
                        != i) ==> #[trigger] final(self).memory().entry(g, j)
                        == old(self).memory().entry(g, j)
            },
    {
        match self.next_table(f, i) {
            Some(c) => c,
            None => {
                let ghost pool = allocator@;
                let ghost m0 = self.mem;
                proof {
            self.mem.lemma_frames_bound();
        }
                let frame = allocator.allocate_frame().unwrap();
                assert(frame == pool[pool.len() - 1]);
                let n = frame.number();
                assert(n < m0.frames() && n != self.root && !referenced(m0, n as int));
                let c = n as usize;
                assert(c != f);
                assert(!m0.entry(f as int, i as int).is_present());
                assert(m0.entry(self.root as int, RECURSIVE_INDEX as int).is_present());
                self.mem.zero(c);
                let ghost m1 = self.mem;
                assert(m1.entry(self.root as int, RECURSIVE_INDEX as int) == m0.entry(
                    self.root as int,
                    RECURSIVE_INDEX as int,
                ));
                proof {
                    lemma_bits_facts(WRITABLE_BIT);
                }
                self.mem.write(f, i, Entry::mapping(frame, EntryFlags::writable()));
                proof {
                    let m2 = self.mem;
                    assert forall|g: int, j: int|
                        0 <= g < m0.frames() && 0 <= j < 512 && referenced(m0, g) && m0.entry(
                            g,
                            j,
                        ).is_present() implies #[trigger] m2.entry(g, j) == m0.entry(g, j) by {
                        assert(g != c);
                    }
                    assert(m2.entry(self.root as int, RECURSIVE_INDEX as int) == m0.entry(
                        self.root as int,
                        RECURSIVE_INDEX as int,
                    ));
                    let rest = allocator@;
                    assert forall|k: int| 0 <= k < rest.len() implies !referenced(
                        m2,
                        (#[trigger] rest[k])@ as int,
                    ) by {
                        assert(rest[k] == pool[k]);
                        if referenced(m2, rest[k]@ as int) {
                            let (g, j) = choose|g: int, j: int|
                                0 <= g < m2.frames() && 0 <= j < 512 && (#[trigger] m2.entry(
                                    g,
                                    j,
                                )).is_present() && m2.entry(g, j).frame@ == rest[k]@ as int;
                            if g == f && j == i {
                                assert(pool[k]@ != pool[pool.len() - 1]@);
                            } else if g == c {
                            } else {
                                assert(m0.entry(g, j) == m2.entry(g, j));
                            }
                        }
                    }
                }
                c
            },
        }
    }
}

impl Mapper {
    /// Maps `page` to `frame` with `flags` and the present bit, creating
    /// the missing tables on the way from the allocator's frames. A page
    /// that is mapped already is refused, never replaced. When it fails,
    /// nothing changes.
    pub fn map_to(&mut self, page: Page, frame: Frame, flags: EntryFlags, allocator: &mut FramePool) -> (r: Result<(), MapError>)
        requires
            old(self).wf(),
            old(self).pool_fresh(old(allocator)@),
            forall|k: int| 0 <= k < old(allocator)@.len() ==> (#[trigger] old(allocator)@[k])@ != frame@,
        ensures
            final(self).wf(),
            final(self).root_frame() == old(self).root_frame(),
            final(self).memory().frames() == old(self).memory().frames(),
            final(self).pool_fresh(final(allocator)@),
            final(self).p4() == old(self).p4(),
            r == old(self).map_to_result(page@, old(allocator)@.len()),
            r is Err ==> *final(self) == *old(self) && *final(allocator) == *old(allocator),
            r is Ok ==> {
                &&& final(self).translate_page_spec(page@) == Some(frame@)
                &&& final(allocator)@ == old(allocator)@.subrange(
                    0,
                    old(allocator)@.len() - map_plan(old(self).memory(), old(self).p4(), page@)->Ok_0,
                )
                &&& final(self).has_leaf(page@)
                &&& final(self).leaf_entry(page@).frame == frame
                &&& forall|g: int|
                    #[trigger] on_walk(final(self).memory(), final(self).p4(), page@, g) ==> used_or_free(
                        old(self).memory(),
                        old(allocator)@,
                        g,
                    )
                &&& forall|g: int, j: int|
                    0 <= g < old(self).memory().frames() && 0 <= j < 512 && walk_avoids(
                        final(self).memory(),
                        final(self).p4(),
                        page@,
                        g,
                        j,
                    ) && !taken(
                        old(allocator)@,
                        map_plan(old(self).memory(), old(self).p4(), page@)->Ok_0,
                        g,
                    ) ==> #[trigger] final(self).memory().entry(g, j) == old(self).memory().entry(g, j)
            },
    {
        let k = match self.plan(page) {
            Ok(k) => k,
            Err(e) => return Err(e),
        };
        if allocator.len() < k {
            return Err(MapError::OutOfFrames);
        }
        let ghost pool0 = allocator@;
        let ghost m0 = self.mem;
        let root = self.root;
        let p4 = self.p4_frame();
        let (i4, i3, i2, i1) = (page.p4_index(), page.p3_index(), page.p2_index(), page.p1_index());
        assert(m0.entry(root as int, RECURSIVE_INDEX as int).is_present());
        let p3 = self.next_table_create(p4, i4, allocator);
        let ghost m1 = self.mem;
        assert(m1.entry(root as int, RECURSIVE_INDEX as int).is_present());
        assert(m1.entry(p4 as int, i4 as int).is_present());
        let p2 = self.next_table_create(p3, i3, allocator);
        let ghost m2 = self.mem;
        assert(m2.entry(root as int, RECURSIVE_INDEX as int).is_present());
        assert(m2.entry(p4 as int, i4 as int) == m1.entry(p4 as int, i4 as int));
        assert(m2.entry(p3 as int, i3 as int).is_present());
        let p1 = self.next_table_create(p2, i2, allocator);
        let ghost m3 = self.mem;
        assert(m3.entry(root as int, RECURSIVE_INDEX as int).is_present());
        assert(m3.entry(p4 as int, i4 as int) == m2.entry(p4 as int, i4 as int));
        assert(m3.entry(p3 as int, i3 as int) == m2.entry(p3 as int, i3 as int));
        assert(!m3.entry(p1 as int, i1 as int).is_present());
        self.mem.write(p1, i1, Entry::mapping(frame, flags));
        proof {
            let m4 = self.mem;
            let pool = allocator@;
            assert(m0.entry(root as int, RECURSIVE_INDEX as int).is_present());
            if k == 3 {
                assert(pool0[pool0.len() - 1]@ == p3);
                assert(pool0[pool0.len() - 2]@ == p2);
                assert(pool0[pool0.len() - 3]@ == p1);
            } else if k == 2 {
                assert(m0.entry(p4 as int, i4 as int).is_present());
                assert(pool0[pool0.len() - 1]@ == p2);
                assert(pool0[pool0.len() - 2]@ == p1);
            } else if k == 1 {
                assert(m0.entry(p4 as int, i4 as int).is_present());
                assert(m0.entry(p3 as int, i3 as int).is_present());
                assert(pool0[pool0.len() - 1]@ == p1);
            } else {
                assert(m0.entry(p4 as int, i4 as int).is_present());
                assert(m0.entry(p3 as int, i3 as int).is_present());
                assert(m0.entry(p2 as int, i2 as int).is_present());
            }
            assert(m4.entry(root as int, RECURSIVE_INDEX as int) == m3.entry(root as int, RECURSIVE_INDEX as int));
            assert(m4.entry(p4 as int, i4 as int) == m3.entry(p4 as int, i4 as int));
            assert(m4.entry(p3 as int, i3 as int) == m3.entry(p3 as int, i3 as int));
            assert(m4.entry(p2 as int, i2 as int) == m3.entry(p2 as int, i2 as int));
            assert forall|q: int| 0 <= q < pool.len() implies !referenced(
                m4,
                (#[trigger] pool[q])@ as int,
            ) by {
                assert(pool[q] == pool0[q]);
                if referenced(m4, pool[q]@ as int) {
                    let (g, j) = choose|g: int, j: int|
                        0 <= g < m4.frames() && 0 <= j < 512 && (#[trigger] m4.entry(g, j)).is_present()
                            && m4.entry(g, j).frame@ == pool[q]@ as int;
                    if g != p1 || j != i1 {
                        assert(m3.entry(g, j) == m4.entry(g, j));
                    }
                }
            }
            assert forall|g: int, j: int|
                0 <= g < m0.frames() && 0 <= j < 512 && walk_avoids(m4, p4 as int, page@, g, j)
                    && !taken(pool0, k as nat, g) implies #[trigger] m4.entry(g, j) == m0.entry(g, j) by {
                if k == 3 {
                    assert(pool0[pool0.len() - 1]@ == p3);
                    assert(pool0[pool0.len() - 2]@ == p2);
                    assert(pool0[pool0.len() - 3]@ == p1);
                } else if k == 2 {
                    assert(pool0[pool0.len() - 1]@ == p2);
                    assert(pool0[pool0.len() - 2]@ == p1);
                } else if k == 1 {
                    assert(pool0[pool0.len() - 1]@ == p1);
                }
                assert(m1.entry(g, j) == m0.entry(g, j));
                assert(m2.entry(g, j) == m1.entry(g, j));
                assert(m3.entry(g, j) == m2.entry(g, j));
                assert(m4.entry(g, j) == m3.entry(g, j));
            }
            if k == 0 {
                assert(pool =~= pool0.subrange(0, pool0.len() - 0));
            } else if k == 1 {
                assert(pool =~= pool0.subrange(0, pool0.len() - 1));
            } else if k == 2 {
                assert(pool =~= pool0.subrange(0, pool0.len() - 2));
            } else {
                assert(pool =~= pool0.subrange(0, pool0.len() - 3));
            }
        }
        Ok(())
    }
}

impl Mapper {
    /// The entry that maps page number `n` through a P1 table.
    pub open spec fn leaf_entry(&self, n: nat) -> Entry {
        self.memory().entry(p1_table_in(self.memory(), self.p4(), n)->0, p1_index_of(n) as int)
    }

    /// Page number `n` is mapped through a P1 table.
    pub open spec fn has_leaf(&self, n: nat) -> bool {
        &&& p1_table_in(self.memory(), self.p4(), n) is Some
        &&& self.leaf_entry(n).is_present()
    }

    /// Maps `page` to a frame taken from the allocator. When it fails,
    /// nothing changes and the frame goes back.
    pub fn map(&mut self, page: Page, flags: EntryFlags, allocator: &mut FramePool) -> (r: Result<(), MapError>)
        requires
            old(self).wf(),
            old(self).pool_fresh(old(allocator)@),
        ensures
            final(self).wf(),
            final(self).root_frame() == old(self).root_frame(),
            final(self).pool_fresh(final(allocator)@),
            final(self).p4() == old(self).p4(),
            r == (if old(allocator)@.len() == 0 {
                Err(MapError::OutOfFrames)
            } else {
                old(self).map_to_result(page@, (old(allocator)@.len() - 1) as nat)
            }),
            r is Err ==> *final(self) == *old(self) && final(allocator)@ == old(allocator)@,
            r is Ok ==> {
                &&& final(self).translate_page_spec(page@) == Some(old(allocator)@.last()@)
                &&& final(self).has_leaf(page@)
                &&& final(self).leaf_entry(page@).frame == old(allocator)@.last()
                &&& forall|g: int, j: int|
                    0 <= g < old(self).memory().frames() && 0 <= j < 512 && walk_avoids(
                        final(self).memory(),
                        final(self).p4(),
                        page@,
                        g,
                        j,
                    ) && !taken(
                        old(allocator)@,
                        map_plan(old(self).memory(), old(self).p4(), page@)->Ok_0 + 1,
                        g,
                    ) ==> #[trigger] final(self).memory().entry(g, j) == old(self).memory().entry(g, j)
                &&& final(allocator)@ == old(allocator)@.subrange(
                    0,
                    old(allocator)@.len() - 1 - map_plan(old(self).memory(), old(self).p4(), page@)->Ok_0,
                )
            },
    {
        let ghost pool0 = allocator@;
        let frame = match allocator.allocate_frame() {
            Some(frame) => frame,
            None => return Err(MapError::OutOfFrames),
        };
        assert(allocator@ =~= pool0.subrange(0, pool0.len() - 1));
        match self.map_to(page, frame, flags, allocator) {
            Ok(()) => {
                proof {
                    let kk = map_plan(old(self).memory(), old(self).p4(), page@)->Ok_0;
                    let rest = pool0.drop_last();
                    assert forall|g: int| taken(rest, kk, g) implies taken(pool0, kk + 1, g) by {
                        let q = choose|q: int| rest.len() - kk <= q < rest.len() && (#[trigger] rest[q])@ == g;
                        assert(pool0[q] == rest[q]);
                    }
                }
                assert(allocator@ =~= pool0.subrange(
                    0,
                    pool0.len() - 1 - map_plan(old(self).memory(), old(self).p4(), page@)->Ok_0,
                ));
                Ok(())
            },
            Err(e) => {
                allocator.deallocate_frame(frame);
                assert(allocator@ =~= pool0);
                Err(e)
            },
        }
    }

    /// Maps the page whose address is the start of `frame` to `frame`.
    pub fn identity_map(&mut self, frame: Frame, flags: EntryFlags, allocator: &mut FramePool) -> (r: Result<(), MapError>)
        requires
            old(self).wf(),
            old(self).pool_fresh(old(allocator)@),
            forall|k: int| 0 <= k < old(allocator)@.len() ==> (#[trigger] old(allocator)@[k])@ != frame@,
            is_canonical(frame@ * PAGE_SIZE as int),
        ensures
            final(self).wf(),
            final(self).root_frame() == old(self).root_frame(),
            final(self).pool_fresh(final(allocator)@),
            final(self).p4() == old(self).p4(),
            r == old(self).map_to_result(frame@, old(allocator)@.len()),
            r is Err ==> *final(self) == *old(self) && *final(allocator) == *old(allocator),
            r is Ok ==> final(self).translate_page_spec(frame@) == Some(frame@),
            r is Ok ==> forall|g: int, j: int|
                0 <= g < old(self).memory().frames() && 0 <= j < 512 && walk_avoids(
                    final(self).memory(),
                    final(self).p4(),
                    frame@,
                    g,
                    j,
                ) && !taken(
                    old(allocator)@,
                    map_plan(old(self).memory(), old(self).p4(), frame@)->Ok_0,
                    g,
                ) ==> #[trigger] final(self).memory().entry(g, j) == old(self).memory().entry(g, j),
    {
        let page = Page::containing_address(frame.start_address());
        assert(page@ == frame@) by (nonlinear_arith)
            requires
                page@ == (frame@ * 4096) / 4096,
        ;
        self.map_to(page, frame, flags, allocator)
    }

    /// Removes the mapping of `page`, which must go through a P1 table and
    /// must not be the recursive slot of the root table, and gives its
    /// frame back to the allocator. Tables left empty stay.
    pub fn unmap(&mut self, page: Page, allocator: &mut FramePool)
        requires
            old(self).wf(),
            old(self).has_leaf(page@),
            !(p1_table_in(old(self).memory(), old(self).p4(), page@)->0 == old(self).root_frame()
                && p1_index_of(page@) == RECURSIVE_INDEX),
        ensures
            final(self).wf(),
            final(self).root_frame() == old(self).root_frame(),
            final(self).memory().frames() == old(self).memory().frames(),
            final(self).p4() == old(self).p4(),
            final(self).translate_page_spec(page@) is None,
            final(allocator)@ == old(allocator)@.push(old(self).leaf_entry(page@).frame),
            final(self).memory().entry(
                p1_table_in(old(self).memory(), old(self).p4(), page@)->0,
                p1_index_of(page@) as int,
            ).flags.bits == 0,
            forall|g: int, j: int|
                0 <= g < old(self).memory().frames() && 0 <= j < 512 && (g != p1_table_in(
                    old(self).memory(),
                    old(self).p4(),
                    page@,
                )->0 || j != p1_index_of(page@)) ==> #[trigger] final(self).memory().entry(g, j)
                    == old(self).memory().entry(g, j),
    {
        let p4 = self.p4_frame();
        let p3 = self.next_table(p4, page.p4_index()).unwrap();
        let p2 = self.next_table(p3, page.p3_index()).unwrap();
        let p1 = self.next_table(p2, page.p2_index()).unwrap();
        let ghost m0 = self.mem;
        let frame = self.mem.read(p1, page.p1_index()).frame;
        self.mem.write(p1, page.p1_index(), Entry::unused());
        allocator.deallocate_frame(frame);
        proof {
            let m1 = self.mem;
            assert(m0.entry(self.root as int, RECURSIVE_INDEX as int).is_present());
            assert(m1.entry(self.root as int, RECURSIVE_INDEX as int) == m0.entry(self.root as int, RECURSIVE_INDEX as int));
        }
    }
}

impl Mapper {
    /// Clears the table in `frame` and points its recursive slot at itself,
    /// which makes it a valid P4 table.
    pub(crate) fn init_table(&mut self, frame: Frame)
        requires
            old(self).wf(),
            frame@ < old(self).memory().frames(),
        ensures
            final(self).wf(),
            final(self).root_frame() == old(self).root_frame(),
            final(self).memory().frames() == old(self).memory().frames(),
            next_table(final(self).memory(), frame@ as int, RECURSIVE_INDEX as int) == Some(frame@ as int),
            final(self).memory().entry(frame@ as int, RECURSIVE_INDEX as int).frame == frame,
            final(self).memory().entry(frame@ as int, RECURSIVE_INDEX as int).flags.bits == WRITABLE_BIT
                | PRESENT_BIT,
            forall|j: int|
                0 <= j < 512 && j != RECURSIVE_INDEX ==> (#[trigger] final(self).memory().entry(
                    frame@ as int,
                    j,
                )).flags.bits == 0 && final(self).memory().entry(frame@ as int, j).frame@ == 0,
            forall|g: int, j: int|
                0 <= g < old(self).memory().frames() && 0 <= j < 512 && g != frame@ ==> #[trigger] final(self).memory().entry(g, j) == old(self).memory().entry(g, j),
    {
        let f = frame.number() as usize;
        let ghost m0 = self.mem;
        proof {
            self.mem.lemma_frames_bound();
        }
        self.mem.zero(f);
        proof {
            lemma_bits_facts(WRITABLE_BIT);
        }
        self.mem.write(f, RECURSIVE_INDEX, Entry::mapping(frame, EntryFlags::writable()));
        proof {
            let m = self.mem;
            if f != self.root {
                assert(m.entry(self.root as int, RECURSIVE_INDEX as int) == m0.entry(
                    self.root as int,
                    RECURSIVE_INDEX as int,
                ));
            }
        }
    }

    /// A mapper over one frame whose table maps only itself.
    pub(crate) fn single_frame() -> (r: Mapper)
        ensures
            r.wf(),
            r.root_frame() == 0,
            r.p4() == 0,
    {
        let mut mem = PhysicalMemory::new(1);
        let frame = Frame::from_number(0);
        proof {
            lemma_bits_facts(WRITABLE_BIT);
        }
        mem.write(0, RECURSIVE_INDEX, Entry::mapping(frame, EntryFlags::writable()));
        Mapper { mem, root: 0 }
    }

    /// Points the root register at frame `root`, whose recursive slot must
    /// lead to a table.
    pub(crate) fn set_root(&mut self, root: usize)
        requires
            old(self).wf(),
            root < old(self).memory().frames(),
            next_table(old(self).memory(), root as int, RECURSIVE_INDEX as int) is Some,
        ensures
            final(self).wf(),
            final(self).memory() == old(self).memory(),
            final(self).root_frame() == root,
    {
        self.root = root;
    }

    /// Writes the recursive slot of the table held by the root register.
    pub(crate) fn set_recursive_entry(&mut self, frame: Frame)
        requires
            old(self).wf(),
            frame@ < old(self).memory().frames(),
        ensures
            final(self).wf(),
            final(self).root_frame() == old(self).root_frame(),
            final(self).p4() == frame@,
            final(self).memory().frames() == old(self).memory().frames(),
            final(self).memory().entry(old(self).root_frame(), RECURSIVE_INDEX as int).frame == frame,
            final(self).memory().entry(old(self).root_frame(), RECURSIVE_INDEX as int).flags.bits
                == WRITABLE_BIT | PRESENT_BIT,
            forall|g: int, j: int|
                0 <= g < old(self).memory().frames() && 0 <= j < 512 && (g != old(self).root_frame()
                    || j != RECURSIVE_INDEX) ==> #[trigger] final(self).memory().entry(g, j)
                    == old(self).memory().entry(g, j),
    {
        proof {
            lemma_bits_facts(WRITABLE_BIT);
        }
        self.mem.write(self.root, RECURSIVE_INDEX, Entry::mapping(frame, EntryFlags::writable()));
    }
}

/// Entries `(p4, i4)`, `(p3, i3)`, `(p2, i2)` and `(p1, i1)` that the walk
/// of page number `n` reads in `m1` read the same in `m2`.
pub open spec fn walk_agrees(m1: PhysicalMemory, m2: PhysicalMemory, p4: int, n: nat) -> bool {
    let (i4, i3, i2, i1) = (
        p4_index_of(n) as int,
        p3_index_of(n) as int,
        p2_index_of(n) as int,
        p1_index_of(n) as int,
    );
    &&& m1.frames() == m2.frames()
    &&& m1.entry(p4, i4) == m2.entry(p4, i4)
    &&& (next_table(m1, p4, i4) matches Some(p3) ==> {
        &&& m1.entry(p3, i3) == m2.entry(p3, i3)
        &&& (next_table(m1, p3, i3) matches Some(p2) ==> {
            &&& m1.entry(p2, i2) == m2.entry(p2, i2)
            &&& (next_table(m1, p2, i2) matches Some(p1) ==> m1.entry(p1, i1) == m2.entry(p1, i1))
        })
    })
}

/// Translation of a page depends only on the entries that its walk reads:
/// changes elsewhere in memory are not seen through it.
pub proof fn lemma_translate_agrees(m1: PhysicalMemory, m2: PhysicalMemory, p4: int, n: nat)
    requires
        walk_agrees(m1, m2, p4, n),
    ensures
        translate_page_in(m1, p4, n) == translate_page_in(m2, p4, n),
{
}

/// Translation reads the tables and changes nothing: two translations of
/// one address in one state agree.
pub proof fn lemma_translate_idempotent(m: Mapper, a: nat, first: Option<nat>, second: Option<nat>)
    requires
        first == m.translate_spec(a),
        second == m.translate_spec(a),
    ensures
        first == second,
{
}

/// A page that maps to frame `f` maps each address in it to the same
/// offset in `f`.
pub proof fn lemma_translate_offset(m: Mapper, n: nat, f: nat, offset: nat)
    requires
        m.translate_page_spec(n) == Some(f),
        offset < 4096,
    ensures
        m.translate_spec(n * 4096 + offset) == Some(f * 4096 + offset),
{
    assert((n * 4096 + offset) / 4096 == n && (n * 4096 + offset) % 4096 == offset) by (nonlinear_arith)
        requires
            offset < 4096,
    ;
}

/// The walk of page number `n` from `p4` in `m` never reads entry `j` of
/// table `g`.
pub open spec fn walk_avoids(m: PhysicalMemory, p4: int, n: nat, g: int, j: int) -> bool {
    let (i4, i3, i2, i1) = (
        p4_index_of(n) as int,
        p3_index_of(n) as int,
        p2_index_of(n) as int,
        p1_index_of(n) as int,
    );
    &&& (p4, i4) != (g, j)
    &&& (next_table(m, p4, i4) matches Some(p3) ==> {
        &&& (p3, i3) != (g, j)
        &&& (next_table(m, p3, i3) matches Some(p2) ==> {
            &&& (p2, i2) != (g, j)
            &&& (next_table(m, p2, i2) matches Some(p1) ==> (p1, i1) != (g, j))
        })
    })
}

/// Two memories that differ at most in entry `j` of table `g` translate
/// alike every page whose walk never reads that entry. What `with` leaves
/// behind differs from what its closure left only in the recursive slot of
/// the root table, so the closure's changes are seen through the table it
/// worked on.
pub proof fn lemma_one_entry_apart(m1: PhysicalMemory, m2: PhysicalMemory, p4: int, n: nat, g: int, j: int)
    requires
        m1.frames() == m2.frames(),
        0 <= p4 < m1.frames(),
        forall|h: int, k: int|
            0 <= h < m1.frames() && 0 <= k < 512 && (h != g || k != j) ==> #[trigger] m2.entry(h, k)
                == m1.entry(h, k),
        walk_avoids(m1, p4, n, g, j),
    ensures
        translate_page_in(m1, p4, n) == translate_page_in(m2, p4, n),
{
    let (i4, i3, i2, i1) = (
        p4_index_of(n) as int,
        p3_index_of(n) as int,
        p2_index_of(n) as int,
        p1_index_of(n) as int,
    );
    assert(m2.entry(p4, i4) == m1.entry(p4, i4));
    if let Some(p3) = next_table(m1, p4, i4) {
        assert(m2.entry(p3, i3) == m1.entry(p3, i3));
        if let Some(p2) = next_table(m1, p3, i3) {
            assert(m2.entry(p2, i2) == m1.entry(p2, i2));
            if let Some(p1) = next_table(m1, p2, i2) {
                assert(m2.entry(p1, i1) == m1.entry(p1, i1));
            }
        }
    }
    lemma_translate_agrees(m1, m2, p4, n);
}

/// The free frames after `map` took the last one for a page and `k` more
/// for new tables, and `unmap` of that page gave its frame back.
pub open spec fn pool_after_map_unmap(pool: Seq<Frame>, k: nat) -> Seq<Frame> {
    pool.subrange(0, pool.len() - 1 - k).push(pool.last())
}

/// Frame conservation over `map` then `unmap` of one page: with distinct
/// free frames, the data frame is back in the pool exactly once, the
/// frames of the tables created stay with those tables, and every other
/// free frame is still there once.
pub proof fn lemma_map_unmap_conserves(pool: Seq<Frame>, k: nat)
    requires
        pool.len() >= 1 + k,
        forall|a: int, b: int| 0 <= a < b < pool.len() ==> pool[a] != pool[b],
    ensures
        pool_after_map_unmap(pool, k).to_multiset().count(pool.last()) == 1,
        forall|i: int|
            pool.len() - 1 - k <= i < pool.len() - 1 ==> pool_after_map_unmap(pool, k).to_multiset().count(
                #[trigger] pool[i],
            ) == 0,
        forall|i: int|
            0 <= i < pool.len() - 1 - k ==> pool_after_map_unmap(pool, k).to_multiset().count(
                #[trigger] pool[i],
            ) == 1,
{
    let kept = pool.subrange(0, pool.len() - 1 - k);
    let after = pool_after_map_unmap(pool, k);
    kept.to_multiset_ensures();
    after.to_multiset_ensures();
    assert forall|i: int| 0 <= i < pool.len() implies kept.to_multiset().count(#[trigger] pool[i]) == (
    if i < pool.len() - 1 - k {
        1int
    } else {
        0int
    }) by {
        lemma_count_distinct(kept, pool[i]);
        if i < pool.len() - 1 - k {
            assert(kept[i] == pool[i]);
        } else {
            assert forall|j: int| 0 <= j < kept.len() implies kept[j] != pool[i] by {
                assert(kept[j] == pool[j]);
            }
        }
    }
    assert(after.to_multiset() == kept.to_multiset().insert(pool.last()));
    assert(pool.last() == pool[pool.len() - 1]);
}

/// In a sequence of distinct items, an item occurs once if some position
/// holds it, and not at all otherwise.
proof fn lemma_count_distinct(s: Seq<Frame>, x: Frame)
    requires
        forall|a: int, b: int| 0 <= a < b < s.len() ==> s[a] != s[b],
    ensures
        (exists|j: int| 0 <= j < s.len() && s[j] == x) ==> s.to_multiset().count(x) == 1,
        (forall|j: int| 0 <= j < s.len() ==> s[j] != x) ==> s.to_multiset().count(x) == 0,
    decreases s.len(),
{
    s.to_multiset_ensures();
    if s.len() > 0 {
        let init = s.drop_last();
        init.to_multiset_ensures();
        assert(s =~= init.push(s.last()));
        lemma_count_distinct(init, x);
        if s.last() == x {
            assert forall|j: int| 0 <= j < init.len() implies init[j] != x by {
                assert(init[j] == s[j]);
            }
        } else {
            if exists|j: int| 0 <= j < s.len() && s[j] == x {
                let j = choose|j: int| 0 <= j < s.len() && s[j] == x;
                assert(init[j] == x);
            }
            assert forall|j: int| 0 <= j < init.len() && (forall|i: int| 0 <= i < s.len() ==> s[i] != x)
                implies init[j] != x by {
                assert(init[j] == s[j]);
            }
        }
    }
}

/// Frame conservation over the calls `map(page)` then `unmap(page)`:
/// `before` and `pool0` are the mapper and the free frames before `map`,
/// `mapped` and `pool1` those after a successful `map`, and `pool2` the
/// free frames after `unmap`, each as those functions' contracts give
/// them. The frame `map` took comes back exactly once, and the frames of
/// the tables created stay out of the pool.
pub proof fn lemma_map_then_unmap_conserves(
    before: Mapper,
    pool0: Seq<Frame>,
    n: nat,
    mapped: Mapper,
    pool1: Seq<Frame>,
    pool2: Seq<Frame>,
)
    requires
        forall|a: int, b: int| 0 <= a < b < pool0.len() ==> pool0[a] != pool0[b],
        pool0.len() > 0,
        before.map_to_result(n, (pool0.len() - 1) as nat) is Ok,
        pool1 == pool0.subrange(0, pool0.len() - 1 - map_plan(before.memory(), before.p4(), n)->Ok_0),
        mapped.has_leaf(n),
        mapped.leaf_entry(n).frame == pool0.last(),
        pool2 == pool1.push(mapped.leaf_entry(n).frame),
    ensures
        ({
            let k = map_plan(before.memory(), before.p4(), n)->Ok_0;
            &&& pool2 == pool_after_map_unmap(pool0, k)
            &&& pool2.to_multiset().count(pool0.last()) == 1
            &&& forall|i: int|
                pool0.len() - 1 - k <= i < pool0.len() - 1 ==> pool2.to_multiset().count(
                    #[trigger] pool0[i],
                ) == 0
            &&& forall|i: int|
                0 <= i < pool0.len() - 1 - k ==> pool2.to_multiset().count(#[trigger] pool0[i]) == 1
        }),
{
    let k = map_plan(before.memory(), before.p4(), n)->Ok_0;
    lemma_map_unmap_conserves(pool0, k);
}

} // verus!
