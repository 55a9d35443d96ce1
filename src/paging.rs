use vstd::prelude::*;
use crate::frame::Frame;
use crate::mapper::{
    lemma_one_entry_apart, lemma_translate_agrees, map_plan, next_table, taken, on_walk, referenced, translate_page_in,
    walk_agrees, walk_avoids, Mapper, RECURSIVE_INDEX,
};
use crate::entry::{PRESENT_BIT, WRITABLE_BIT};
use crate::page::{p1_index_of, p2_index_of, p3_index_of, p4_index_of};
use crate::temporary_page::TemporaryPage;

verus! {

/// The address space whose P4 frame the root register holds.
pub struct ActivePageTable {
    mapper: Mapper,
}

/// An address space that is not active: the frame of its P4 table.
pub struct InactivePageTable {
    p4_frame: Frame,
}

impl InactivePageTable {
    pub closed spec fn frame(&self) -> Frame {
        self.p4_frame
    }

    pub fn p4_frame(&self) -> (r: Frame)
        ensures
            r == self.frame(),
    {
        self.p4_frame
    }

    /// Turns `frame` into a fresh P4 table, reached through
    /// `temporary_page`: every entry cleared, and the recursive slot
    /// pointing at the table itself. `frame` must be free: no table points
    /// at it.
    pub fn new(frame: Frame, active_table: &mut ActivePageTable, temporary_page: &mut TemporaryPage) -> (r: InactivePageTable)
        requires
            old(active_table).wf(),
            frame@ < old(active_table)@.memory().frames(),
            frame@ != old(active_table)@.root_frame(),
            !referenced(old(active_table)@.memory(), frame@ as int),
            old(active_table)@.pool_fresh(old(temporary_page).pool()),
            forall|k: int|
                0 <= k < old(temporary_page).pool().len() ==> (#[trigger] old(temporary_page).pool()[k])@
                    != frame@,
            old(active_table)@.map_to_result(
                old(temporary_page).page()@,
                old(temporary_page).pool().len(),
            ) is Ok,
        ensures
            final(active_table).wf(),
            r.frame()@ == frame@,
            final(active_table)@.root_frame() == old(active_table)@.root_frame(),
            final(active_table)@.memory().frames() == old(active_table)@.memory().frames(),
            final(active_table)@.translate_page_spec(old(temporary_page).page()@) is None,
            final(temporary_page).page() == old(temporary_page).page(),
            next_table(final(active_table)@.memory(), frame@ as int, RECURSIVE_INDEX as int)
                == Some(frame@ as int),
            final(active_table)@.memory().entry(frame@ as int, RECURSIVE_INDEX as int).frame@ == frame@,
            final(active_table)@.memory().entry(frame@ as int, RECURSIVE_INDEX as int).flags.bits
                == WRITABLE_BIT | PRESENT_BIT,
            forall|j: int|
                0 <= j < 512 && j != RECURSIVE_INDEX ==> (#[trigger] final(active_table)@.memory().entry(
                    frame@ as int,
                    j,
                )).flags.bits == 0 && final(active_table)@.memory().entry(frame@ as int, j).frame@ == 0,
            final(temporary_page).pool() == old(temporary_page).pool().subrange(
                0,
                old(temporary_page).pool().len() - map_plan(
                    old(active_table)@.memory(),
                    old(active_table)@.p4(),
                    old(temporary_page).page()@,
                )->Ok_0,
            ),
            forall|g: int, j: int|
                0 <= g < old(active_table)@.memory().frames() && 0 <= j < 512 && g != frame@
                    && walk_avoids(
                    final(active_table)@.memory(),
                    final(active_table)@.p4(),
                    old(temporary_page).page()@,
                    g,
                    j,
                ) && !taken(
                    old(temporary_page).pool(),
                    map_plan(
                        old(active_table)@.memory(),
                        old(active_table)@.p4(),
                        old(temporary_page).page()@,
                    )->Ok_0,
                    g,
                ) ==> #[trigger] final(active_table)@.memory().entry(g, j) == old(active_table)@.memory().entry(g, j),
    {
        let ghost n = temporary_page.page()@;
        let f = temporary_page.map_table_frame(frame, active_table);
        let ghost m1 = active_table@;
        proof {
            active_table@.memory().lemma_frames_bound();
        }
        let table_frame = Frame::from_number(f as u64);
        active_table.mapper_mut().init_table(table_frame);
        proof {
            let m2 = active_table@;
            let (mem1, mem2, p4) = (m1.memory(), m2.memory(), m1.p4());
            let (i4, i3, i2, i1) = (
                p4_index_of(n) as int,
                p3_index_of(n) as int,
                p2_index_of(n) as int,
                p1_index_of(n) as int,
            );
            assert(mem2.entry(m1.root_frame(), RECURSIVE_INDEX as int) == mem1.entry(
                m1.root_frame(),
                RECURSIVE_INDEX as int,
            ));
            assert(mem2.entry(p4, i4) == mem1.entry(p4, i4));
            let p3 = next_table(mem1, p4, i4)->0;
            assert(on_walk(mem1, p4, n, p3));
            assert(mem2.entry(p3, i3) == mem1.entry(p3, i3));
            let p2 = next_table(mem1, p3, i3)->0;
            assert(on_walk(mem1, p4, n, p2));
            assert(mem2.entry(p2, i2) == mem1.entry(p2, i2));
            let p1 = next_table(mem1, p2, i2)->0;
            assert(on_walk(mem1, p4, n, p1));
            assert(mem2.entry(p1, i1) == mem1.entry(p1, i1));
            if on_walk(mem2, p4, n, frame@ as int) {
                assert(on_walk(mem1, p4, n, frame@ as int));
            }
        }
        let ghost m2 = active_table@;
        temporary_page.unmap(active_table);
        proof {
            let m3 = active_table@;
            let (mem1, mem2, mem3, p4) = (m1.memory(), m2.memory(), m3.memory(), m1.p4());
            let (i4, i3, i2, i1) = (
                p4_index_of(n) as int,
                p3_index_of(n) as int,
                p2_index_of(n) as int,
                p1_index_of(n) as int,
            );
            let p3 = next_table(mem1, p4, i4)->0;
            let p2 = next_table(mem1, p3, i3)->0;
            let p1 = next_table(mem1, p2, i2)->0;
            assert(on_walk(mem1, p4, n, p3));
            assert(on_walk(mem1, p4, n, p2));
            assert(on_walk(mem1, p4, n, p1));
            assert(mem2.entry(p1, i1) == mem1.entry(p1, i1));
            assert((p4, i4) != (p1, i1));
            assert((p3, i3) != (p1, i1));
            assert((p2, i2) != (p1, i1));
            assert(mem3.entry(p4, i4) == mem1.entry(p4, i4));
            assert(mem3.entry(p3, i3) == mem1.entry(p3, i3));
            assert(mem3.entry(p2, i2) == mem1.entry(p2, i2));
            assert(mem3.entry(frame@ as int, RECURSIVE_INDEX as int) == mem2.entry(frame@ as int, RECURSIVE_INDEX as int));
            assert forall|j: int| 0 <= j < 512 implies #[trigger] mem3.entry(frame@ as int, j) == mem2.entry(frame@ as int, j) by {
                assert(p1 != frame@);
            }
            assert forall|g: int, j: int|
                0 <= g < mem1.frames() && 0 <= j < 512 && g != frame@ && walk_avoids(mem3, p4, n, g, j)
                    implies #[trigger] mem3.entry(g, j) == mem1.entry(g, j) && walk_avoids(mem1, p4, n, g, j) by {
                assert(mem2.entry(g, j) == mem1.entry(g, j));
            }
        }
        InactivePageTable { p4_frame: table_frame }
    }
}

/// `m` is `before` with the recursive slot of the root table pointing,
/// present and writable, at the table in frame `t`: the mapper that `with`
/// hands to its closure.
pub open spec fn redirected(before: Mapper, t: nat, m: Mapper) -> bool {
    let (root, mem) = (before.root_frame(), before.memory());
    &&& m.wf()
    &&& m.root_frame() == root
    &&& m.p4() == t
    &&& m.memory().frames() == mem.frames()
    &&& m.memory().entry(root, RECURSIVE_INDEX as int).frame@ == t
    &&& m.memory().entry(root, RECURSIVE_INDEX as int).flags.bits == WRITABLE_BIT | PRESENT_BIT
    &&& forall|g: int, j: int|
        0 <= g < mem.frames() && 0 <= j < 512 && (g != root || j != RECURSIVE_INDEX)
            ==> #[trigger] m.memory().entry(g, j) == mem.entry(g, j)
}

/// How `with` on the active mapper `before` and the table in frame `t`
/// relates the mapper handed to the closure (`inner`), the one it gave
/// back (`out`), and the one left afterwards (`after`): `inner` is
/// `before` with the recursive slot of the root table pointing at `t`, and
/// `after` is `out` with that slot pointing back at the root table.
pub open spec fn with_outcome(before: Mapper, t: nat, inner: Mapper, out: Mapper, after: Mapper) -> bool {
    let root = before.root_frame();
    &&& redirected(before, t, inner)
    &&& after.memory().frames() == out.memory().frames()
    &&& after.root_frame() == root
    &&& after.p4() == root
    &&& after.memory().entry(root, RECURSIVE_INDEX as int).frame@ == root
    &&& after.memory().entry(root, RECURSIVE_INDEX as int).flags.bits == WRITABLE_BIT | PRESENT_BIT
    &&& forall|g: int, j: int|
        0 <= g < out.memory().frames() && 0 <= j < 512 && (g != root || j != RECURSIVE_INDEX)
            ==> #[trigger] after.memory().entry(g, j) == out.memory().entry(g, j)
}

/// Isolation of `with`. What the closure changed is seen through the table
/// it worked on, for every page whose walk there avoids the recursive slot
/// of the root table. Through the active table a page translates as before
/// whenever the closure left alone the entries that its walk reads, and
/// the walk avoids that slot.
pub proof fn lemma_with_isolation(before: Mapper, t: nat, inner: Mapper, out: Mapper, after: Mapper, n: nat)
    requires
        before.wf(),
        before.p4() == before.root_frame(),
        t < before.memory().frames(),
        out.memory().frames() == before.memory().frames(),
        with_outcome(before, t, inner, out, after),
    ensures
        walk_avoids(out.memory(), t as int, n, before.root_frame(), RECURSIVE_INDEX as int)
            ==> translate_page_in(after.memory(), t as int, n) == translate_page_in(out.memory(), t as int, n),
        walk_agrees(before.memory(), out.memory(), before.root_frame(), n) && walk_avoids(
            before.memory(),
            before.root_frame(),
            n,
            before.root_frame(),
            RECURSIVE_INDEX as int,
        ) ==> after.translate_page_spec(n) == before.translate_page_spec(n),
{
    let root = before.root_frame();
    if walk_avoids(out.memory(), t as int, n, root, RECURSIVE_INDEX as int) {
        lemma_one_entry_apart(out.memory(), after.memory(), t as int, n, root, RECURSIVE_INDEX as int);
    }
    if walk_agrees(before.memory(), out.memory(), root, n) && walk_avoids(
        before.memory(),
        root,
        n,
        root,
        RECURSIVE_INDEX as int,
    ) {
        lemma_translate_agrees(before.memory(), out.memory(), root, n);
        assert(walk_avoids(out.memory(), root, n, root, RECURSIVE_INDEX as int));
        lemma_one_entry_apart(out.memory(), after.memory(), root, n, root, RECURSIVE_INDEX as int);
    }
}

impl View for ActivePageTable {
    type V = Mapper;

    closed spec fn view(&self) -> Mapper {
        self.mapper
    }
}

impl ActivePageTable {
    /// The mapper is sound and the recursive slot of the root table points
    /// at the root table itself.
    pub open spec fn wf(&self) -> bool {
        &&& self@.wf()
        &&& self@.p4() == self@.root_frame()
    }

    /// The active table of `mapper`, whose root table maps itself through
    /// its recursive slot.
    pub fn new(mapper: Mapper) -> (r: ActivePageTable)
        requires
            mapper.wf(),
            mapper.p4() == mapper.root_frame(),
        ensures
            r.wf(),
            r@ == mapper,
    {
        ActivePageTable { mapper }
    }

    pub fn mapper(&self) -> (r: &Mapper)
        ensures
            *r == self@,
    {
        &self.mapper
    }

    /// The mapper, to change the active tables through. Its operations keep
    /// the root frame and the recursive slot as they are.
    pub fn mapper_mut(&mut self) -> (r: &mut Mapper)
        ensures
            *r == old(self)@,
            final(self)@ == *final(r),
    {
        &mut self.mapper
    }

    /// Runs `f` on the tables of `table` as if it were active, without
    /// changing the root register: the recursive slot of the root table is
    /// pointed at `table` while `f` runs, and restored afterwards. `f`
    /// gets the redirected mapper and hands it back with its own result.
    pub fn with<F, R>(&mut self, table: &InactivePageTable, f: F) -> (r: R)
        where
            F: FnOnce(Mapper) -> (Mapper, R),
        requires
            old(self).wf(),
            table.frame()@ < old(self)@.memory().frames(),
            forall|m: Mapper| redirected(old(self)@, table.frame()@, m) ==> #[trigger] f.requires((m,)),
            forall|m: Mapper, out: (Mapper, R)|
                #[trigger] f.ensures((m,), out) ==> out.0.wf() && out.0.root_frame() == m.root_frame()
                    && out.0.memory().frames() == m.memory().frames(),
        ensures
            final(self).wf(),
            final(self)@.root_frame() == old(self)@.root_frame(),
            exists|inner: Mapper, out: (Mapper, R)|
                {
                    &&& f.ensures((inner,), out)
                    &&& r == out.1
                    &&& with_outcome(old(self)@, table.frame()@, inner, out.0, final(self)@)
                },
    {
        let root = self.mapper.root();
        proof {
            self.mapper.memory().lemma_frames_bound();
        }
        let backup = Frame::from_number(root as u64);
        let mut inner = Mapper::single_frame();
        core::mem::swap(&mut self.mapper, &mut inner);
        inner.set_recursive_entry(table.p4_frame);
        let ghost inner_g = inner;
        let out = f(inner);
        let ghost out_g = out;
        let (mut outer, r) = out;
        outer.set_recursive_entry(backup);
        self.mapper = outer;
        assert(f.ensures((inner_g,), out_g));
        assert(with_outcome(old(self)@, table.frame()@, inner_g, out_g.0, self@));
        r
    }

    /// Makes `new_table` the active address space by loading its frame into
    /// the root register, and hands back the one that was active.
    pub fn switch(&mut self, new_table: InactivePageTable) -> (r: InactivePageTable)
        requires
            old(self).wf(),
            new_table.frame()@ < old(self)@.memory().frames(),
            next_table(old(self)@.memory(), new_table.frame()@ as int, RECURSIVE_INDEX as int)
                == Some(new_table.frame()@ as int),
        ensures
            final(self).wf(),
            final(self)@.memory() == old(self)@.memory(),
            final(self)@.root_frame() == new_table.frame()@,
            r.frame()@ == old(self)@.root_frame(),
    {
        let root = self.mapper.root();
        proof {
            self.mapper.memory().lemma_frames_bound();
        }
        let old_table = InactivePageTable { p4_frame: Frame::from_number(root as u64) };
        let n = new_table.p4_frame.number();
        self.mapper.set_root(n as usize);
        old_table
    }
}

} // verus!
