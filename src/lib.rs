//! Four-level x86-64 paging over a model of physical memory: pages and
//! frames, page-table entries, the recursive self-map, translation,
//! mapping and unmapping, and the active/inactive table lifecycle.
use vstd::prelude::*;

pub mod entry;
pub mod frame;
pub mod mapper;
pub mod memory;
pub mod page;
pub mod paging;
pub mod temporary_page;

pub use crate::entry::{Entry, EntryFlags};
pub use crate::frame::{Frame, FramePool};
pub use crate::mapper::{MapError, Mapper};
pub use crate::memory::PhysicalMemory;
pub use crate::page::{Page, PhysicalAddress, VirtualAddress, ENTRY_COUNT, PAGE_SIZE};
pub use crate::paging::{ActivePageTable, InactivePageTable};
pub use crate::temporary_page::TemporaryPage;
