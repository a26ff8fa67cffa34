use vstd::prelude::*;

use std::collections::HashMap;

use crate::frame::{FrameAllocator, PhysFrame};

verus! {

broadcast use vstd::std_specs::hash::group_hash_axioms;

/// Page table entry flag: the entry is present.
pub const PRESENT: u64 = 1;

/// Page table entry flag: the memory may be written.
pub const WRITABLE: u64 = 2;

/// Page table entry flag: user mode may access the memory.
pub const USER_ACCESSIBLE: u64 = 4;

/// Number of entries in a page table.
pub const ENTRY_COUNT: u64 = 512;

/// Number of pages below one level-2 table.
pub const LEVEL_2_SPAN: u64 = 512 * 512;

/// Number of pages below one level-3 table.
pub const LEVEL_3_SPAN: u64 = 512 * 512 * 512;

/// Number of distinct pages in the 48-bit virtual address space.
pub const PAGE_COUNT: u64 = 0x10_0000_0000;

/// A 4096-byte virtual page, named by its start address.
#[derive(Clone, Copy, Debug, PartialEq, Eq, Structural)]
pub struct Page {
    pub start_address: u64,
}

impl Page {
    /// The page that holds the virtual address `addr`.
    pub fn containing_address(addr: u64) -> (r: Page)
        ensures
            r.start_address == addr - addr % 4096,
            r.start_address % 4096 == 0,
    {
        Page { start_address: addr - addr % 4096 }
    }
}

/// A last-level page table entry: the frame that a page maps to, and its flags.
#[derive(Clone, Copy, Debug, PartialEq, Eq, Structural)]
pub struct PageTableEntry {
    pub frame: PhysFrame,
    pub flags: u64,
}

/// Why a page could not be mapped.
#[derive(Clone, Copy, Debug, PartialEq, Eq, Structural)]
pub enum MapToError {
    /// A page table was missing and the frame allocator had no frame for it.
    FrameAllocationFailed,
    /// The page is already mapped, to the given frame.
    PageAlreadyMapped(PhysFrame),
    /// A table on the page's path is a huge-page entry. The page tables kept
    /// here hold no huge pages, so only a hardware mapper reports this.
    ParentEntryHugePage,
}

/// A page whose translation has just been installed; its stale entry, if
/// any, must be flushed from the translation cache.
#[must_use]
#[derive(Clone, Copy, Debug, PartialEq, Eq, Structural)]
pub struct MapperFlush {
    pub page: Page,
}

/// The page-table hierarchy below the top-level table. A table of a lower
/// level is named by the part of the page number that selects it: the
/// level-3 table by the top nine bits, the level-2 table by the top eighteen,
/// the level-1 table by the top twenty-seven, and a last-level entry by the
/// whole page number.
pub struct PageTables {
    pub level_3: Map<u64, PhysFrame>,
    pub level_2: Map<u64, PhysFrame>,
    pub level_1: Map<u64, PhysFrame>,
    pub entries: Map<u64, PageTableEntry>,
}

/// The page number of a virtual address, within the 48-bit address space.
pub open spec fn page_number(addr: u64) -> u64 {
    ((addr / 4096) % PAGE_COUNT) as u64
}

/// Key of the level-1 table that holds the entry of page number `pn`.
pub open spec fn level_1_key(pn: u64) -> u64 {
    pn / ENTRY_COUNT
}

/// Key of the level-2 table on the path to page number `pn`.
pub open spec fn level_2_key(pn: u64) -> u64 {
    pn / LEVEL_2_SPAN
}

/// Key of the level-3 table on the path to page number `pn`.
pub open spec fn level_3_key(pn: u64) -> u64 {
    pn / LEVEL_3_SPAN
}

/// The physical address that a virtual address translates to: the walk finds
/// every table on its path and a last-level entry for its page.
pub open spec fn translate(t: PageTables, addr: u64) -> Option<int> {
    let pn = page_number(addr);
    if t.level_3.contains_key(level_3_key(pn)) && t.level_2.contains_key(level_2_key(pn))
        && t.level_1.contains_key(level_1_key(pn)) && t.entries.contains_key(pn) {
        Some(t.entries[pn].frame.start_address + addr % 4096)
    } else {
        None
    }
}

/// The tables of one level and the frames left after making sure that the
/// table named `key` exists, taking a frame for it when it does not; `None`
/// when a frame is needed and none is left.
pub open spec fn ensure_table_result(tables: Map<u64, PhysFrame>, key: u64, avail: Seq<PhysFrame>) -> Option<
    (Map<u64, PhysFrame>, Seq<PhysFrame>),
> {
    if tables.contains_key(key) {
        Some((tables, avail))
    } else if avail.len() > 0 {
        Some((tables.insert(key, avail[0]), avail.drop_first()))
    } else {
        None
    }
}

/// The tables, the frames left, and the result after mapping `page` to
/// `frame`: the missing tables on the page's path are created top down, each
/// in a frame taken from `avail`, and then the page's entry is installed
/// unless one is there already. Tables created before a failure stay.
pub open spec fn map_to_result(
    t: PageTables,
    avail: Seq<PhysFrame>,
    page: Page,
    frame: PhysFrame,
    flags: u64,
) -> (PageTables, Seq<PhysFrame>, Result<MapperFlush, MapToError>) {
    let pn = page_number(page.start_address);
    match ensure_table_result(t.level_3, level_3_key(pn), avail) {
        None => (t, avail, Err(MapToError::FrameAllocationFailed)),
        Some((l3, a3)) => {
            let t3 = PageTables { level_3: l3, ..t };
            match ensure_table_result(t.level_2, level_2_key(pn), a3) {
                None => (t3, a3, Err(MapToError::FrameAllocationFailed)),
                Some((l2, a2)) => {
                    let t2 = PageTables { level_2: l2, ..t3 };
                    match ensure_table_result(t.level_1, level_1_key(pn), a2) {
                        None => (t2, a2, Err(MapToError::FrameAllocationFailed)),
                        Some((l1, a1)) => {
                            let t1 = PageTables { level_1: l1, ..t2 };
                            if t.entries.contains_key(pn) {
                                (t1, a1, Err(MapToError::PageAlreadyMapped(t.entries[pn].frame)))
                            } else {
                                (
                                    PageTables {
                                        entries: t.entries.insert(
                                            pn,
                                            PageTableEntry { frame, flags: flags | PRESENT },
                                        ),
                                        ..t1
                                    },
                                    a1,
                                    Ok(MapperFlush { page }),
                                )
                            }
                        },
                    }
                },
            }
        },
    }
}

/// The record of the translations installed below the top-level table in
/// `level_4_frame`, reached through the mirror of physical memory that starts
/// at `physical_memory_offset`. It holds the tables and entries that mapping
/// through it created, starting from an empty address space; it is a model of
/// the hierarchy, and writes no hardware page table. On the machine, the
/// mappings that `HeapInit` asks for are made by the hardware mapper.
pub struct OffsetPageTable {
    physical_memory_offset: u64,
    level_4_frame: PhysFrame,
    level_3_tables: HashMap<u64, PhysFrame>,
    level_2_tables: HashMap<u64, PhysFrame>,
    level_1_tables: HashMap<u64, PhysFrame>,
    entries: HashMap<u64, PageTableEntry>,
}

impl OffsetPageTable {
    /// The tables below the top-level table.
    pub closed spec fn tables(&self) -> PageTables {
        PageTables {
            level_3: self.level_3_tables@,
            level_2: self.level_2_tables@,
            level_1: self.level_1_tables@,
            entries: self.entries@,
        }
    }

    pub closed spec fn spec_physical_memory_offset(&self) -> u64 {
        self.physical_memory_offset
    }

    pub closed spec fn spec_level_4_frame(&self) -> PhysFrame {
        self.level_4_frame
    }

    /// Every mapped frame is frame aligned, every entry has the tables on its
    /// path, and the top-level table is reachable through the mirror.
    pub open spec fn inv(&self) -> bool {
        &&& forall|pn: u64| #[trigger]
            self.tables().entries.contains_key(pn) ==> self.tables().entries[pn].frame.start_address
                % 4096 == 0
        &&& forall|pn: u64| #[trigger]
            self.tables().entries.contains_key(pn) ==> {
                &&& self.tables().level_1.contains_key(level_1_key(pn))
                &&& self.tables().level_2.contains_key(level_2_key(pn))
                &&& self.tables().level_3.contains_key(level_3_key(pn))
            }
        &&& self.spec_physical_memory_offset() + self.spec_level_4_frame().start_address <= u64::MAX
    }

    /// Creates a mapper over the top-level table in `level_4_frame`, which the
    /// mirror of physical memory at `physical_memory_offset` makes reachable.
    /// The caller must make sure the mirror is complete and writable.
    pub fn init(physical_memory_offset: u64, level_4_frame: PhysFrame) -> (r: Self)
        requires
            physical_memory_offset + level_4_frame.start_address <= u64::MAX,
        ensures
            r.inv(),
            r.spec_physical_memory_offset() == physical_memory_offset,
            r.spec_level_4_frame() == level_4_frame,
            r.tables().level_3 == Map::<u64, PhysFrame>::empty(),
            r.tables().level_2 == Map::<u64, PhysFrame>::empty(),
            r.tables().level_1 == Map::<u64, PhysFrame>::empty(),
            r.tables().entries == Map::<u64, PageTableEntry>::empty(),
    {
        OffsetPageTable {
            physical_memory_offset,
            level_4_frame,
            level_3_tables: HashMap::new(),
            level_2_tables: HashMap::new(),
            level_1_tables: HashMap::new(),
            entries: HashMap::new(),
        }
    }

    /// The virtual address at which physical address `phys` can be read and
    /// written through the mirror that starts at `physical_memory_offset`, or
    /// `None` when it lies beyond the address space.
    pub fn mirrored_address(physical_memory_offset: u64, phys: u64) -> (r: Option<u64>)
        ensures
            physical_memory_offset + phys <= u64::MAX ==> r == Some((physical_memory_offset + phys) as u64),
            physical_memory_offset + phys > u64::MAX ==> r is None,
    {
        physical_memory_offset.checked_add(phys)
    }

    /// The virtual address at which the top-level table can be read and
    /// written: its physical address moved into the mirror.
    pub fn active_level_4_table(&self) -> (r: u64)
        requires
            self.inv(),
        ensures
            r == self.spec_physical_memory_offset() + self.spec_level_4_frame().start_address,
    {
        self.physical_memory_offset + self.level_4_frame.start_address
    }

    /// Makes sure the table named `key` exists in `tables`, taking a frame for
    /// it from the frame allocator when it does not; `false` when none is left.
    fn ensure_table<F: FrameAllocator>(
        tables: &mut HashMap<u64, PhysFrame>,
        key: u64,
        frame_allocator: &mut F,
    ) -> (r: bool)
        requires
            old(frame_allocator).inv(),
        ensures
            final(frame_allocator).inv(),
            match ensure_table_result(old(tables)@, key, old(frame_allocator).available()) {
                Some((t, a)) => r && final(tables)@ == t && final(frame_allocator).available() == a,
                None => !r && final(tables)@ == old(tables)@ && final(frame_allocator).available()
                    == old(frame_allocator).available(),
            },
    {
        if tables.contains_key(&key) {
            return true;
        }
        match frame_allocator.allocate_frame() {
            Some(frame) => {
                tables.insert(key, frame);
                true
            },
            None => false,
        }
    }

    /// Maps `page` to `frame` with `flags` (and the present flag), creating
    /// the missing tables on the page's path in frames from `frame_allocator`.
    /// Returns the page, whose translation-cache entry the caller flushes.
    pub fn map_to<F: FrameAllocator>(
        &mut self,
        page: Page,
        frame: PhysFrame,
        flags: u64,
        frame_allocator: &mut F,
    ) -> (r: Result<MapperFlush, MapToError>)
        requires
            old(self).inv(),
            old(frame_allocator).inv(),
            page.start_address % 4096 == 0,
            frame.start_address % 4096 == 0,
        ensures
            final(self).inv(),
            final(frame_allocator).inv(),
            final(self).spec_physical_memory_offset() == old(self).spec_physical_memory_offset(),
            final(self).spec_level_4_frame() == old(self).spec_level_4_frame(),
            (final(self).tables(), final(frame_allocator).available(), r) == map_to_result(
                old(self).tables(),
                old(frame_allocator).available(),
                page,
                frame,
                flags,
            ),
            r is Ok ==> forall|offset: u64|
                offset < 4096 && page.start_address + offset <= u64::MAX ==> #[trigger] translate(
                    final(self).tables(),
                    (page.start_address + offset) as u64,
                ) == Some(frame.start_address + offset),
    {
        proof {
            {
                assert forall|offset: u64|
                    offset < 4096 && page.start_address + offset <= u64::MAX
                        && map_to_result(old(self).tables(), old(frame_allocator).available(), page, frame, flags).2 is Ok
                    implies #[trigger] translate(
                    map_to_result(old(self).tables(), old(frame_allocator).available(), page, frame, flags).0,
                    (page.start_address + offset) as u64,
                ) == Some(frame.start_address + offset) by {
                    lemma_mapping_correct(old(self).tables(), old(frame_allocator).available(), page, frame, flags, offset);
                }
            }
        }
        let pn = (page.start_address / 4096) % PAGE_COUNT;
        if !Self::ensure_table(
            &mut self.level_3_tables,
            pn / LEVEL_3_SPAN,
            frame_allocator,
        ) {
            assert(self.tables().entries == old(self).tables().entries);
            return Err(MapToError::FrameAllocationFailed);
        }
        if !Self::ensure_table(&mut self.level_2_tables, pn / LEVEL_2_SPAN, frame_allocator) {
            assert(self.tables().entries == old(self).tables().entries);
            return Err(MapToError::FrameAllocationFailed);
        }
        if !Self::ensure_table(&mut self.level_1_tables, pn / ENTRY_COUNT, frame_allocator) {
            assert(self.tables().entries == old(self).tables().entries);
            return Err(MapToError::FrameAllocationFailed);
        }
        match self.entries.get(&pn) {
            Some(entry) => {
                return Err(MapToError::PageAlreadyMapped(entry.frame));
            },
            None => {},
        }
        self.entries.insert(pn, PageTableEntry { frame, flags: flags | PRESENT });
        Ok(MapperFlush { page })
    }

    /// The physical address that `addr` translates to, or `None` when its
    /// page is not mapped.
    pub fn translate_addr(&self, addr: u64) -> (r: Option<u64>)
        requires
            self.inv(),
        ensures
            r matches Some(p) ==> translate(self.tables(), addr) == Some(p as int),
            r is None ==> translate(self.tables(), addr) is None,
    {
        let pn = (addr / 4096) % PAGE_COUNT;
        if !self.level_3_tables.contains_key(&(pn / LEVEL_3_SPAN)) {
            return None;
        }
        if !self.level_2_tables.contains_key(&(pn / LEVEL_2_SPAN)) {
            return None;
        }
        if !self.level_1_tables.contains_key(&(pn / ENTRY_COUNT)) {
            return None;
        }
        match self.entries.get(&pn) {
            Some(entry) => {
                assert(self.tables().entries.contains_key(pn));
                Some(entry.frame.start_address + addr % 4096)
            },
            None => None,
        }
    }
}

/// Physical address of the text-mode display buffer.
pub const VGA_BUFFER_ADDRESS: u64 = 0xb8000;

/// Maps `page` to the frame of the text-mode display buffer, present and
/// writable.
pub fn create_example_mapping<F: FrameAllocator>(
    page: Page,
    mapper: &mut OffsetPageTable,
    frame_allocator: &mut F,
) -> (r: Result<MapperFlush, MapToError>)
    requires
        old(mapper).inv(),
        old(frame_allocator).inv(),
        page.start_address % 4096 == 0,
    ensures
        final(mapper).inv(),
        final(frame_allocator).inv(),
        (final(mapper).tables(), final(frame_allocator).available(), r) == map_to_result(
            old(mapper).tables(),
            old(frame_allocator).available(),
            page,
            PhysFrame { start_address: VGA_BUFFER_ADDRESS },
            PRESENT | WRITABLE,
        ),
        r is Ok ==> final(mapper).tables().entries[page_number(page.start_address)].flags == PRESENT
            | WRITABLE,
        r is Ok ==> forall|offset: u64|
            offset < 4096 && page.start_address + offset <= u64::MAX ==> #[trigger] translate(
                final(mapper).tables(),
                (page.start_address + offset) as u64,
            ) == Some(VGA_BUFFER_ADDRESS + offset),
{
    let frame = PhysFrame::containing_address(VGA_BUFFER_ADDRESS);
    assert((1u64 | 2u64) | 1u64 == 1u64 | 2u64) by (bit_vector);
    mapper.map_to(page, frame, PRESENT | WRITABLE, frame_allocator)
}

/// Mapping correctness: once a call maps `page` to `frame`, every address
/// inside the page translates to the address at the same offset inside the
/// frame.
pub proof fn lemma_mapping_correct(
    t: PageTables,
    avail: Seq<PhysFrame>,
    page: Page,
    frame: PhysFrame,
    flags: u64,
    offset: u64,
)
    requires
        page.start_address % 4096 == 0,
        offset < 4096,
        page.start_address + offset <= u64::MAX,
        map_to_result(t, avail, page, frame, flags).2 is Ok,
    ensures
        translate(map_to_result(t, avail, page, frame, flags).0, (page.start_address + offset) as u64)
            == Some(frame.start_address + offset),
{
    let addr = (page.start_address + offset) as u64;
    assert(addr / 4096 == page.start_address / 4096) by (nonlinear_arith)
        requires
            page.start_address % 4096 == 0,
            offset < 4096,
            addr == page.start_address + offset,
    ;
    assert(addr % 4096 == offset) by (nonlinear_arith)
        requires
            page.start_address % 4096 == 0,
            offset < 4096,
            addr == page.start_address + offset,
    ;
}

} // verus!
