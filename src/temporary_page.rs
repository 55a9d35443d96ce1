use vstd::prelude::*;
use crate::entry::EntryFlags;
use crate::frame::{Frame, FramePool};
use crate::mapper::{map_plan, on_walk, p1_table_in, taken, used_or_free, walk_avoids, Mapper};
use crate::page::p1_index_of;
use crate::page::Page;
use crate::paging::ActivePageTable;

verus! {

/// Number of frames a temporary page keeps for its own tables.
pub const TABLE_FRAMES: usize = 3;

/// One reserved virtual page, used to reach a frame that no table maps,
/// with a few frames of its own for the tables above it.
pub struct TemporaryPage {
    page: Page,
    allocator: FramePool,
}

impl TemporaryPage {
    pub closed spec fn page(&self) -> Page {
        self.page
    }

    /// The frames kept for the tables of the page.
    pub closed spec fn pool(&self) -> Seq<Frame> {
        self.allocator@
    }

    /// Reserves `page`, taking up to three frames from `allocator`.
    pub fn new(page: Page, allocator: &mut FramePool) -> (r: TemporaryPage)
        ensures
            r.page() == page,
            ({
                let n = old(allocator)@.len();
                let t = if n < 3 { n } else { 3 };
                &&& final(allocator)@ == old(allocator)@.subrange(0, n - t)
                &&& r.pool().len() == t
                &&& forall|i: int| 0 <= i < t ==> #[trigger] r.pool()[i] == old(allocator)@[n - 1 - i]
            }),
    {
        let mut own = FramePool::new(Vec::new());
        let mut i: usize = 0;
        let ghost start = allocator@;
        while i < TABLE_FRAMES
            invariant
                i <= 3,
                start == old(allocator)@,
                ({
                    let n = start.len();
                    let t = if n < i { n } else { i as nat };
                    &&& allocator@ == start.subrange(0, n - t)
                    &&& own@.len() == t
                    &&& forall|j: int| 0 <= j < t ==> #[trigger] own@[j] == start[n - 1 - j]
                }),
            decreases 3 - i,
        {
            let ghost before = allocator@;
            match allocator.allocate_frame() {
                Some(frame) => own.deallocate_frame(frame),
                None => {},
            }
            assert(allocator@ =~= start.subrange(0, start.len() - (if start.len() < i + 1 { start.len() } else { (i + 1) as nat })));
            i = i + 1;
        }
        TemporaryPage { page, allocator: own }
    }

    /// Maps the page to `frame` in the active tables and reaches the frame
    /// through it, for use as a page table.
    pub fn map_table_frame(&mut self, frame: Frame, active_table: &mut ActivePageTable) -> (f: usize)
        requires
            old(active_table).wf(),
            frame@ < old(active_table)@.memory().frames(),
            old(active_table)@.pool_fresh(old(self).pool()),
            forall|k: int| 0 <= k < old(self).pool().len() ==> (#[trigger] old(self).pool()[k])@ != frame@,
            old(active_table)@.map_to_result(old(self).page()@, old(self).pool().len()) is Ok,
        ensures
            final(active_table).wf(),
            f == frame@,
            final(self).page() == old(self).page(),
            final(active_table)@.root_frame() == old(active_table)@.root_frame(),
            final(active_table)@.memory().frames() == old(active_table)@.memory().frames(),
            final(active_table)@.translate_page_spec(old(self).page()@) == Some(frame@),
            final(active_table)@.has_leaf(old(self).page()@),
            final(active_table)@.leaf_entry(old(self).page()@).frame == frame,
            forall|g: int|
                #[trigger] on_walk(final(active_table)@.memory(), final(active_table)@.p4(), old(self).page()@, g)
                    ==> used_or_free(old(active_table)@.memory(), old(self).pool(), g),
            final(self).pool() == old(self).pool().subrange(
                0,
                old(self).pool().len() - map_plan(
                    old(active_table)@.memory(),
                    old(active_table)@.p4(),
                    old(self).page()@,
                )->Ok_0,
            ),
            forall|g: int, j: int|
                0 <= g < old(active_table)@.memory().frames() && 0 <= j < 512 && walk_avoids(
                    final(active_table)@.memory(),
                    final(active_table)@.p4(),
                    old(self).page()@,
                    g,
                    j,
                ) && !taken(
                    old(self).pool(),
                    map_plan(
                        old(active_table)@.memory(),
                        old(active_table)@.p4(),
                        old(self).page()@,
                    )->Ok_0,
                    g,
                ) ==> #[trigger] final(active_table)@.memory().entry(g, j) == old(active_table)@.memory().entry(g, j),
    {
        let mapper = active_table.mapper_mut();
        let _ = mapper.map_to(self.page, frame, EntryFlags::writable(), &mut self.allocator);
        let reached = active_table.mapper().translate_page(self.page).unwrap();
        proof {
            active_table@.memory().lemma_frames_bound();
        }
        reached.number() as usize
    }

    /// Removes the mapping of the page. The frame it showed stays with its
    /// owner; the page's own table frames stay with the page.
    pub fn unmap(&mut self, active_table: &mut ActivePageTable)
        requires
            old(active_table).wf(),
            old(active_table)@.has_leaf(old(self).page()@),
            old(active_table)@.leaf_entry(old(self).page()@).frame@ != old(active_table)@.root_frame(),
        ensures
            final(active_table).wf(),
            final(self).page() == old(self).page(),
            final(self).pool() == old(self).pool(),
            final(active_table)@.root_frame() == old(active_table)@.root_frame(),
            final(active_table)@.memory().frames() == old(active_table)@.memory().frames(),
            final(active_table)@.translate_page_spec(old(self).page()@) is None,
            final(active_table)@.p4() == old(active_table)@.p4(),
            forall|g: int, j: int|
                0 <= g < old(active_table)@.memory().frames() && 0 <= j < 512 && (g != p1_table_in(
                    old(active_table)@.memory(),
                    old(active_table)@.p4(),
                    old(self).page()@,
                )->0 || j != p1_index_of(old(self).page()@)) ==> #[trigger] final(active_table)@.memory().entry(g, j) == old(active_table)@.memory().entry(g, j),
    {
        let ghost m0: Mapper = active_table@;
        proof {
            assert(m0.memory().entry(m0.root_frame(), 511).frame@ == m0.root_frame());
        }
        let mapper = active_table.mapper_mut();
        mapper.unmap(self.page, &mut self.allocator);
        let _ = self.allocator.allocate_frame();
        assert(self.allocator@ =~= old(self).allocator@);
    }
}

} // verus!
