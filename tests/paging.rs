use paging::{
    ActivePageTable, Entry, EntryFlags, Frame, FramePool, InactivePageTable, MapError, Mapper, Page,
    PhysicalMemory, TemporaryPage, PAGE_SIZE,
};

const TEMP_ADDR: u64 = 0xcafe_babe_0000;

const FRAMES: usize = 64;

fn table_entry(frame: u64) -> Entry {
    Entry::mapping(Frame::from_number(frame), EntryFlags::writable())
}

/// P4 in frame 0 (recursive slot 511), P3 in frame 1, P2 in frame 2 whose
/// 512 entries map the first GiB identically with 2 MiB pages.
fn booted_memory() -> PhysicalMemory {
    let mut mem = PhysicalMemory::new(FRAMES);
    mem.write(0, 511, table_entry(0));
    mem.write(0, 0, table_entry(1));
    mem.write(1, 0, table_entry(2));
    let huge = EntryFlags::writable().union(EntryFlags::huge_page());
    for i in 0..512u64 {
        mem.write(2, i as usize, Entry::mapping(Frame::from_number(i * 512), huge));
    }
    mem
}

fn booted() -> ActivePageTable {
    ActivePageTable::new(Mapper::new(booted_memory(), 0))
}

/// Frames 3 .. FRAMES, handed out from the top.
fn free_frames() -> FramePool {
    FramePool::new((3..FRAMES as u64).map(Frame::from_number).collect())
}

#[test]
fn page_of_address() {
    let p = Page::containing_address(0x1234_5678);
    assert_eq!(p.number(), 0x1234_5678 / 4096);
    assert_eq!(p.start_address(), 0x1234_5000);
    let p = Page::containing_address(0xffff_ffff_ffff_f123);
    assert_eq!(p.start_address(), 0xffff_ffff_ffff_f000);
}

#[test]
fn page_contains_its_address() {
    for a in [0u64, 1, 4095, 4096, 0x7fff_ffff_ffff, 0xffff_8000_0000_0000, u64::MAX] {
        let s = Page::containing_address(a).start_address();
        assert!(s <= a && a - s < PAGE_SIZE);
    }
}

#[test]
fn page_indices() {
    let p = Page::containing_address(0o177_776_775_774_0123);
    let n = p.number();
    assert_eq!(p.p4_index() as u64, (n >> 27) & 0o777);
    assert_eq!(p.p3_index() as u64, (n >> 18) & 0o777);
    assert_eq!(p.p2_index() as u64, (n >> 9) & 0o777);
    assert_eq!(p.p1_index() as u64, n & 0o777);
    let q = Page::containing_address(42 * 512 * 512 * 4096 + 3 * 512 * 4096 + 7 * 4096);
    assert_eq!((q.p4_index(), q.p3_index(), q.p2_index(), q.p1_index()), (0, 42, 3, 7));
}

#[test]
fn flags_combine() {
    let f = EntryFlags::present().union(EntryFlags::writable());
    assert!(f.contains(EntryFlags::writable()));
    assert!(!f.contains(EntryFlags::huge_page()));
    assert!(f.contains(EntryFlags::empty()));
    let mut e = Entry::unused();
    assert!(!e.present());
    assert_eq!(e.pointed_frame(), None);
    e.set(Frame::from_number(9), EntryFlags::empty());
    assert!(e.present());
    assert_eq!(e.pointed_frame(), Some(Frame::from_number(9)));
    e.set_unused();
    assert_eq!(e.pointed_frame(), None);
}

#[test]
fn pool_is_last_in_first_out() {
    let mut pool = FramePool::new(vec![Frame::from_number(5), Frame::from_number(6)]);
    assert_eq!(pool.allocate_frame(), Some(Frame::from_number(6)));
    pool.deallocate_frame(Frame::from_number(8));
    assert_eq!(pool.allocate_frame(), Some(Frame::from_number(8)));
    assert_eq!(pool.allocate_frame(), Some(Frame::from_number(5)));
    assert_eq!(pool.allocate_frame(), None);
    assert_eq!(pool.len(), 0);
}

#[test]
fn translate_after_boot() {
    let table = booted();
    let m = table.mapper();
    assert_eq!(m.translate(0), Some(0));
    assert_eq!(m.translate(4096), Some(4096));
    assert_eq!(m.translate(512 * 4096), Some(512 * 4096));
    assert_eq!(m.translate(300 * 512 * 4096), Some(300 * 512 * 4096));
    assert_eq!(m.translate(512 * 512 * 4096), None);
    assert_eq!(m.translate(512 * 512 * 4096 - 1), Some(512 * 512 * 4096 - 1));
}

#[test]
fn translate_twice_agrees() {
    let table = booted();
    for a in [0u64, 12345, 512 * 512 * 4096, 0xffff_ffff_ffff_f000] {
        assert_eq!(table.mapper().translate(a), table.mapper().translate(a));
    }
}

#[test]
fn recursive_slot_maps_p4() {
    let table = booted();
    // P4, P3, P2 and P1 index 511: the page that shows the P4 table.
    assert_eq!(table.mapper().translate(0xffff_ffff_ffff_f000), Some(0));
}

#[test]
fn map_to_then_unmap() {
    let mut table = booted();
    let mut pool = free_frames();
    let addr = 42 * 512 * 512 * 4096;
    let page = Page::containing_address(addr);
    let frame = pool.allocate_frame().expect("no more frames");
    assert_eq!(table.mapper().translate(addr), None);
    let before = pool.len();
    assert_eq!(table.mapper_mut().map_to(page, frame, EntryFlags::empty(), &mut pool), Ok(()));
    assert_eq!(table.mapper().translate(addr), Some(frame.start_address()));
    assert_eq!(table.mapper().translate(addr + 17), Some(frame.start_address() + 17));
    // a P2 and a P1 table were created
    assert_eq!(pool.len(), before - 2);
    table.mapper_mut().unmap(Page::containing_address(addr), &mut pool);
    assert_eq!(table.mapper().translate(addr), None);
    assert_eq!(pool.len(), before - 1);
    assert_eq!(pool.allocate_frame(), Some(frame));
}

#[test]
fn map_takes_frame_and_unmap_returns_it_once() {
    let mut table = booted();
    let mut pool = free_frames();
    let page = Page::containing_address(7 * 512 * 512 * 4096 + 5 * 4096);
    let start = pool.len();
    assert_eq!(table.mapper_mut().map(page, EntryFlags::writable(), &mut pool), Ok(()));
    // the data frame is the last free one; then a P2 and a P1 table
    let data = Frame::from_number(FRAMES as u64 - 1);
    assert_eq!(pool.len(), start - 3);
    assert_eq!(table.mapper().translate(page.start_address()), Some(data.start_address()));
    table.mapper_mut().unmap(page, &mut pool);
    assert_eq!(pool.len(), start - 2);
    assert_eq!(pool.allocate_frame(), Some(data));
    assert_eq!(pool.allocate_frame(), Some(Frame::from_number(FRAMES as u64 - 4)));
}

#[test]
fn map_again_in_same_tables_uses_no_table_frames() {
    let mut table = booted();
    let mut pool = free_frames();
    let a = Page::containing_address(9 * 512 * 512 * 4096);
    let b = Page::containing_address(9 * 512 * 512 * 4096 + 4096);
    assert_eq!(table.mapper_mut().map(a, EntryFlags::empty(), &mut pool), Ok(()));
    let n = pool.len();
    assert_eq!(table.mapper_mut().map(b, EntryFlags::empty(), &mut pool), Ok(()));
    assert_eq!(pool.len(), n - 1);
    assert_ne!(table.mapper().translate(a.start_address()), table.mapper().translate(b.start_address()));
}

#[test]
fn map_to_mapped_page_is_refused() {
    let mut table = booted();
    let mut pool = free_frames();
    let page = Page::containing_address(3 * 512 * 512 * 4096);
    let f1 = pool.allocate_frame().unwrap();
    let f2 = pool.allocate_frame().unwrap();
    assert_eq!(table.mapper_mut().map_to(page, f1, EntryFlags::empty(), &mut pool), Ok(()));
    let n = pool.len();
    assert_eq!(
        table.mapper_mut().map_to(page, f2, EntryFlags::empty(), &mut pool),
        Err(MapError::AlreadyMapped)
    );
    assert_eq!(pool.len(), n);
    assert_eq!(table.mapper().translate(page.start_address()), Some(f1.start_address()));
}

#[test]
fn map_to_without_frames_changes_nothing() {
    let mut table = booted();
    let mut pool = FramePool::new(vec![Frame::from_number(3)]);
    let page = Page::containing_address(100 * 512 * 512 * 4096);
    let frame = Frame::from_number(20);
    assert_eq!(
        table.mapper_mut().map_to(page, frame, EntryFlags::empty(), &mut pool),
        Err(MapError::OutOfFrames)
    );
    assert_eq!(pool.len(), 1);
    assert_eq!(table.mapper().translate(page.start_address()), None);
    let mut empty = FramePool::new(vec![]);
    assert_eq!(table.mapper_mut().map(page, EntryFlags::empty(), &mut empty), Err(MapError::OutOfFrames));
}

#[test]
fn map_to_inside_huge_page_is_refused() {
    let mut table = booted();
    let mut pool = free_frames();
    let page = Page::containing_address(5 * 512 * 4096);
    let frame = pool.allocate_frame().unwrap();
    assert_eq!(
        table.mapper_mut().map_to(page, frame, EntryFlags::empty(), &mut pool),
        Err(MapError::HugePage)
    );
}

#[test]
fn identity_map_maps_frame_to_itself() {
    let mut table = booted();
    let mut pool = free_frames();
    let frame = Frame::from_number(2 * 512 * 512 + 40);
    assert_eq!(table.mapper_mut().identity_map(frame, EntryFlags::writable(), &mut pool), Ok(()));
    assert_eq!(table.mapper().translate(frame.start_address() + 5), Some(frame.start_address() + 5));
}

#[test]
fn translate_in_huge_page_keeps_offset() {
    let table = booted();
    let a = 17 * 512 * 4096 + 3 * 4096 + 99;
    assert_eq!(table.mapper().translate(a), Some(a));
}

#[test]
fn new_inactive_table_maps_only_itself() {
    let mut table = booted();
    let mut pool = free_frames();
    let mut temp = TemporaryPage::new(Page::containing_address(TEMP_ADDR), &mut pool);
    let inactive = InactivePageTable::new(Frame::from_number(10), &mut table, &mut temp);
    assert_eq!(inactive.p4_frame(), Frame::from_number(10));
    assert_eq!(table.mapper().translate(TEMP_ADDR), None);
    let mem = table.mapper().memory_ref();
    assert_eq!(mem.read(10, 511).pointed_frame(), Some(Frame::from_number(10)));
    assert_eq!(mem.read(10, 511).flags, EntryFlags::present().union(EntryFlags::writable()));
    for i in 0..511 {
        assert!(!mem.read(10, i).present());
        assert_eq!(mem.read(10, i), Entry::unused());
    }
    // the active tables are as they were
    assert_eq!(table.mapper().translate(4096), Some(4096));
}

#[test]
fn with_changes_inactive_tables_only() {
    let mut table = booted();
    let mut pool = free_frames();
    let mut temp = TemporaryPage::new(Page::containing_address(TEMP_ADDR), &mut pool);
    let inactive = InactivePageTable::new(Frame::from_number(10), &mut table, &mut temp);
    let addr = 42 * 512 * 512 * 4096;
    let page = Page::containing_address(addr);
    let frame = Frame::from_number(30);
    let (result, _pool) = table.with(&inactive, move |mut m: Mapper| {
        let r = m.map_to(page, frame, EntryFlags::writable(), &mut pool);
        let seen = m.translate(addr);
        (m, (r.map(|_| seen), pool))
    });
    assert_eq!(result, Ok(Some(frame.start_address())));
    // not seen through the active table
    assert_eq!(table.mapper().translate(addr), None);
    assert_eq!(table.mapper().translate(0xffff_ffff_ffff_f000), Some(0));
    // seen once the inactive table is switched in
    let old = table.switch(inactive);
    assert_eq!(old.p4_frame(), Frame::from_number(0));
    assert_eq!(table.mapper().translate(addr), Some(frame.start_address()));
    assert_eq!(table.mapper().translate(0), None);
    let back = table.switch(old);
    assert_eq!(back.p4_frame(), Frame::from_number(10));
    assert_eq!(table.mapper().translate(addr), None);
}

#[test]
fn temporary_page_takes_three_frames() {
    let mut pool = free_frames();
    let n = pool.len();
    let _temp = TemporaryPage::new(Page::containing_address(TEMP_ADDR), &mut pool);
    assert_eq!(pool.len(), n - 3);
    assert_eq!(pool.allocate_frame(), Some(Frame::from_number(FRAMES as u64 - 4)));
    let mut short = FramePool::new(vec![Frame::from_number(4)]);
    let _temp = TemporaryPage::new(Page::containing_address(TEMP_ADDR), &mut short);
    assert_eq!(short.len(), 0);
}

#[test]
fn temporary_page_reaches_frame_and_keeps_it() {
    let mut table = booted();
    let mut pool = free_frames();
    let mut temp = TemporaryPage::new(Page::containing_address(TEMP_ADDR), &mut pool);
    let frame = Frame::from_number(12);
    assert_eq!(temp.map_table_frame(frame, &mut table), 12);
    assert_eq!(table.mapper().translate(TEMP_ADDR + 8), Some(frame.start_address() + 8));
    temp.unmap(&mut table);
    assert_eq!(table.mapper().translate(TEMP_ADDR), None);
    // the tables of the temporary page stay, so mapping again takes no frame
    assert_eq!(temp.map_table_frame(Frame::from_number(13), &mut table), 13);
    assert_eq!(table.mapper().translate(TEMP_ADDR), Some(Frame::from_number(13).start_address()));
}

#[test]
fn new_inactive_table_clears_stale_entries() {
    let mut mem = booted_memory();
    mem.write(10, 0, table_entry(33));
    mem.write(10, 300, Entry::mapping(Frame::from_number(40), EntryFlags::huge_page()));
    let mut table = ActivePageTable::new(Mapper::new(mem, 0));
    let mut pool = free_frames();
    let mut temp = TemporaryPage::new(Page::containing_address(TEMP_ADDR), &mut pool);
    let inactive = InactivePageTable::new(Frame::from_number(10), &mut table, &mut temp);
    let mem = table.mapper().memory_ref();
    for i in 0..511 {
        assert_eq!(mem.read(10, i), Entry::unused());
    }
    assert_eq!(mem.read(10, 511).pointed_frame(), Some(inactive.p4_frame()));
}
