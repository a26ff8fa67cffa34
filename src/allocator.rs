use vstd::prelude::*;

use crate::addr::{is_pow2, is_power_of_two};
use crate::frame::{FrameAllocator, PhysFrame};
use crate::paging::{
    ensure_table_result, map_to_result, page_number, translate, level_1_key, level_2_key, level_3_key, MapToError,
    MapperFlush, OffsetPageTable, Page, PageTables, PRESENT, WRITABLE,
};

pub mod bump;
pub mod fixed_size_block;
pub mod linked_list;

verus! {

/// Virtual address at which the kernel heap starts.
pub const HEAP_START: u64 = 0x_4444_4444_0000;

/// Size in bytes of the kernel heap.
pub const HEAP_SIZE: u64 = 100 * 1024;

/// An allocator that has no memory: every request fails.
pub struct Dummy;

impl Dummy {
    /// Always fails.
    pub fn allocate(&self, _layout: Layout) -> (r: Option<u64>)
        ensures
            r is None,
    {
        None
    }
}

/// Number of pages of the kernel heap.
pub const HEAP_PAGES: u64 = HEAP_SIZE / 4096;

/// Why the heap could not be set up.
#[derive(Clone, Copy, Debug, PartialEq, Eq, Structural)]
pub enum HeapInitError {
    /// The frame allocator ran out of frames before every heap page was backed.
    FrameAllocationFailed,
    /// A heap page was already mapped, to the given frame.
    PageAlreadyMapped(PhysFrame),
    /// A table on a heap page's path is a huge-page entry.
    ParentEntryHugePage,
}

/// The heap set-up error that a failed mapping becomes.
pub open spec fn heap_error_of(e: MapToError) -> HeapInitError {
    match e {
        MapToError::FrameAllocationFailed => HeapInitError::FrameAllocationFailed,
        MapToError::PageAlreadyMapped(f) => HeapInitError::PageAlreadyMapped(f),
        MapToError::ParentEntryHugePage => HeapInitError::ParentEntryHugePage,
    }
}

/// What the heap set-up asks for next.
#[derive(Clone, Copy, Debug, PartialEq, Eq, Structural)]
pub enum HeapInitAction {
    /// Map the page to the frame, present and writable, flush its stale
    /// translation, and report the outcome with `HeapInit::map_outcome`.
    MapPage(Page, PhysFrame),
    /// Every heap page is backed and the allocator has been given the heap.
    Done,
    /// The heap cannot be set up.
    Failed(HeapInitError),
}

/// The decisions of the heap set-up, one page after the other: which page
/// comes next, which frame backs it, when the allocator gets the heap, and how
/// a failure ends the work. Whoever owns the page tables carries out the
/// mappings that it asks for.
pub struct HeapInit {
    next_page: u64,
}

impl HeapInit {
    /// Index of the heap page that is backed next; past the last page once the
    /// allocator has been given the heap.
    pub closed spec fn page_index(&self) -> int {
        self.next_page as int
    }

    /// Starts with the first heap page.
    pub fn new() -> (r: HeapInit)
        ensures
            r.page_index() == 0,
    {
        HeapInit { next_page: 0 }
    }

    /// Decides the next step. While heap pages are left, the next page gets
    /// the next frame of `frame_allocator`, or the set-up fails when there is
    /// none. Once every page is backed, `allocator` is given the heap.
    pub fn next_action<F: FrameAllocator, A: HeapAllocator>(
        &mut self,
        frame_allocator: &mut F,
        allocator: &mut A,
    ) -> (r: HeapInitAction)
        requires
            old(self).page_index() <= HEAP_PAGES,
            old(frame_allocator).inv(),
            old(allocator).heap_inv(),
            !old(allocator).heap_initialized(),
        ensures
            final(frame_allocator).inv(),
            ({
                let i = old(self).page_index();
                let avail = old(frame_allocator).available();
                if i == HEAP_PAGES {
                    &&& r == HeapInitAction::Done
                    &&& final(self).page_index() == HEAP_PAGES + 1
                    &&& final(frame_allocator).available() == avail
                    &&& final(allocator).heap_inv()
                    &&& final(allocator).heap_initialized()
                    &&& final(allocator).heap_region() == (HEAP_START, HEAP_SIZE)
                    &&& final(allocator).heap_all_free()
                } else if avail.len() == 0 {
                    &&& r == HeapInitAction::Failed(HeapInitError::FrameAllocationFailed)
                    &&& final(self).page_index() == i
                    &&& final(frame_allocator).available() == avail
                    &&& *final(allocator) == *old(allocator)
                } else {
                    &&& r == HeapInitAction::MapPage(heap_page(i), avail[0])
                    &&& heap_page(i).start_address % 4096 == 0
                    &&& avail[0].start_address % 4096 == 0
                    &&& final(self).page_index() == i
                    &&& final(frame_allocator).available() == avail.drop_first()
                    &&& *final(allocator) == *old(allocator)
                }
            }),
    {
        if self.next_page == HEAP_PAGES {
            allocator.init_heap_region(HEAP_START, HEAP_SIZE);
            self.next_page = HEAP_PAGES + 1;
            return HeapInitAction::Done;
        }
        match frame_allocator.allocate_frame() {
            Some(frame) => {
                let page = Page { start_address: HEAP_START + self.next_page * 4096 };
                assert(page.start_address % 4096 == 0) by (nonlinear_arith)
                    requires
                        page.start_address == HEAP_START + self.next_page * 4096,
                        HEAP_START % 4096 == 0,
                ;
                HeapInitAction::MapPage(page, frame)
            },
            None => HeapInitAction::Failed(HeapInitError::FrameAllocationFailed),
        }
    }

    /// Takes the outcome of the mapping asked for last: on success the next
    /// page comes; a failure ends the set-up with the matching error.
    pub fn map_outcome(&mut self, outcome: Result<(), MapToError>) -> (r: Option<HeapInitError>)
        requires
            old(self).page_index() < HEAP_PAGES,
        ensures
            match outcome {
                Ok(()) => r is None && final(self).page_index() == old(self).page_index() + 1,
                Err(e) => r == Some(heap_error_of(e)) && final(self).page_index() == old(self).page_index(),
            },
    {
        match outcome {
            Ok(()) => {
                self.next_page = self.next_page + 1;
                None
            },
            Err(MapToError::FrameAllocationFailed) => Some(HeapInitError::FrameAllocationFailed),
            Err(MapToError::PageAlreadyMapped(f)) => Some(HeapInitError::PageAlreadyMapped(f)),
            Err(MapToError::ParentEntryHugePage) => Some(HeapInitError::ParentEntryHugePage),
        }
    }
}

/// A heap allocation strategy that can be given the heap once.
pub trait HeapAllocator {
    /// The invariant of the allocator's state.
    spec fn heap_inv(&self) -> bool;

    /// Whether the allocator has been given its heap.
    spec fn heap_initialized(&self) -> bool;

    /// The heap the allocator was given: its start and its size in bytes.
    spec fn heap_region(&self) -> (u64, u64);

    /// The whole heap region is free: nothing of it has been handed out.
    spec fn heap_all_free(&self) -> bool;

    /// Gives the allocator the heap `[heap_start, heap_start + heap_size)`,
    /// which must be mapped and unused. An allocator is initialized once only:
    /// a second call is not allowed.
    fn init_heap_region(&mut self, heap_start: u64, heap_size: u64)
        requires
            old(self).heap_inv(),
            !old(self).heap_initialized(),
            heap_start % 8 == 0,
            heap_size >= 16,
            heap_start + heap_size <= u64::MAX,
        ensures
            final(self).heap_inv(),
            final(self).heap_initialized(),
            final(self).heap_region() == (heap_start, heap_size),
            final(self).heap_all_free(),
    ;
}

/// The `i`-th page of the heap.
pub open spec fn heap_page(i: int) -> Page {
    Page { start_address: (HEAP_START + i * 4096) as u64 }
}

/// The tables, the frames left, and the result after backing the heap pages
/// from the `i`-th on: each page takes the next frame and is mapped present
/// and writable; the first failure stops the work, and what was mapped stays.
pub open spec fn heap_map_from(t: PageTables, avail: Seq<PhysFrame>, i: int) -> (
    PageTables,
    Seq<PhysFrame>,
    Result<(), HeapInitError>,
)
    decreases HEAP_PAGES - i,
{
    if i >= HEAP_PAGES {
        (t, avail, Ok(()))
    } else if avail.len() == 0 {
        (t, avail, Err(HeapInitError::FrameAllocationFailed))
    } else {
        let (t1, a1, r) = map_to_result(t, avail.drop_first(), heap_page(i), avail[0], PRESENT | WRITABLE);
        match r {
            Ok(_) => heap_map_from(t1, a1, i + 1),
            Err(e) => (t1, a1, Err(heap_error_of(e))),
        }
    }
}

/// Every table on the path to page number `pn`, and its entry, exist in `t`.
pub open spec fn page_mapped(t: PageTables, pn: u64) -> bool {
    &&& t.level_3.contains_key(level_3_key(pn))
    &&& t.level_2.contains_key(level_2_key(pn))
    &&& t.level_1.contains_key(level_1_key(pn))
    &&& t.entries.contains_key(pn)
}

/// `u` keeps every table and entry of `t`.
pub open spec fn tables_grow(t: PageTables, u: PageTables) -> bool {
    &&& forall|k: u64| #[trigger] t.level_3.contains_key(k) ==> u.level_3.contains_key(k)
    &&& forall|k: u64| #[trigger] t.level_2.contains_key(k) ==> u.level_2.contains_key(k)
    &&& forall|k: u64| #[trigger] t.level_1.contains_key(k) ==> u.level_1.contains_key(k)
    &&& forall|k: u64| #[trigger] t.entries.contains_key(k) ==> u.entries.contains_key(k) && u.entries[k] == t.entries[k]
}

/// The frames that back the heap pages from the `i`-th on, one per page in
/// page order, when `heap_map_from` maps them all.
pub open spec fn heap_frames_from(t: PageTables, avail: Seq<PhysFrame>, i: int) -> Seq<PhysFrame>
    decreases HEAP_PAGES - i,
{
    if i >= HEAP_PAGES || avail.len() == 0 {
        Seq::empty()
    } else {
        let (t1, a1, r) = map_to_result(t, avail.drop_first(), heap_page(i), avail[0], PRESENT | WRITABLE);
        seq![avail[0]] + heap_frames_from(t1, a1, i + 1)
    }
}

proof fn lemma_map_to_grows(t: PageTables, avail: Seq<PhysFrame>, page: Page, frame: PhysFrame, flags: u64)
    ensures
        tables_grow(t, map_to_result(t, avail, page, frame, flags).0),
{
}

proof fn lemma_heap_map_from(t: PageTables, avail: Seq<PhysFrame>, i: int)
    requires
        0 <= i,
    ensures
        tables_grow(t, heap_map_from(t, avail, i).0),
        heap_map_from(t, avail, i).2 is Ok ==> forall|j: int|
            i <= j < HEAP_PAGES ==> page_mapped(
                heap_map_from(t, avail, i).0,
                #[trigger] page_number(heap_page(j).start_address),
            ),
        heap_map_from(t, avail, i).2 is Ok && i <= HEAP_PAGES ==> heap_frames_from(t, avail, i).len()
            == HEAP_PAGES - i,
        heap_map_from(t, avail, i).2 is Ok ==> forall|j: int|
            i <= j < HEAP_PAGES ==> heap_map_from(t, avail, i).0.entries[#[trigger] page_number(
                heap_page(j).start_address,
            )].frame == heap_frames_from(t, avail, i)[j - i],
    decreases HEAP_PAGES - i,
{
    if i < HEAP_PAGES && avail.len() > 0 {
        let (t1, a1, r) = map_to_result(t, avail.drop_first(), heap_page(i), avail[0], PRESENT | WRITABLE);
        lemma_map_to_grows(t, avail.drop_first(), heap_page(i), avail[0], PRESENT | WRITABLE);
        if r is Ok {
            lemma_heap_map_from(t1, a1, i + 1);
            assert(page_mapped(t1, page_number(heap_page(i).start_address)));
            let fr = heap_frames_from(t, avail, i);
            let rest = heap_frames_from(t1, a1, i + 1);
            assert(fr == seq![avail[0]] + rest);
            let fin = heap_map_from(t, avail, i).0;
            assert(heap_map_from(t, avail, i) == heap_map_from(t1, a1, i + 1));
            assert(t1.entries[page_number(heap_page(i).start_address)].frame == avail[0]);
            if heap_map_from(t1, a1, i + 1).2 is Ok {
                assert(rest.len() == HEAP_PAGES - i - 1);
                assert forall|j: int| i <= j < HEAP_PAGES implies fin.entries[#[trigger] page_number(
                    heap_page(j).start_address,
                )].frame == fr[j - i] by {
                    if j > i {
                        assert(fr[j - i] == rest[j - i - 1]);
                    }
                }
            }
        }
    }
}

proof fn lemma_ensure_table_suffix(tables: Map<u64, PhysFrame>, key: u64, avail: Seq<PhysFrame>)
    ensures
        ensure_table_result(tables, key, avail) matches Some((_, a)) ==> a.len() <= avail.len() && a
            == avail.subrange(avail.len() - a.len(), avail.len() as int),
{
    if !tables.contains_key(key) && avail.len() > 0 {
        assert(avail.drop_first() =~= avail.subrange(1, avail.len() as int));
    } else {
        assert(avail =~= avail.subrange(0, avail.len() as int));
    }
}

proof fn lemma_subrange_of_suffix(avail: Seq<PhysFrame>, a: Seq<PhysFrame>, b: Seq<PhysFrame>)
    requires
        a.len() <= avail.len(),
        a == avail.subrange(avail.len() - a.len(), avail.len() as int),
        b.len() <= a.len(),
        b == a.subrange(a.len() - b.len(), a.len() as int),
    ensures
        b == avail.subrange(avail.len() - b.len(), avail.len() as int),
{
    assert(b =~= avail.subrange(avail.len() - b.len(), avail.len() as int));
}

/// What a mapping leaves of the frames is a suffix of what it was given.
proof fn lemma_map_to_suffix(t: PageTables, avail: Seq<PhysFrame>, page: Page, frame: PhysFrame, flags: u64)
    ensures
        ({
            let a = map_to_result(t, avail, page, frame, flags).1;
            a.len() <= avail.len() && a == avail.subrange(avail.len() - a.len(), avail.len() as int)
        }),
{
    let pn = page_number(page.start_address);
    assert(avail =~= avail.subrange(0, avail.len() as int));
    lemma_ensure_table_suffix(t.level_3, level_3_key(pn), avail);
    if let Some((l3, a3)) = ensure_table_result(t.level_3, level_3_key(pn), avail) {
        lemma_ensure_table_suffix(t.level_2, level_2_key(pn), a3);
        if let Some((l2, a2)) = ensure_table_result(t.level_2, level_2_key(pn), a3) {
            lemma_subrange_of_suffix(avail, a3, a2);
            lemma_ensure_table_suffix(t.level_1, level_1_key(pn), a2);
            if let Some((l1, a1)) = ensure_table_result(t.level_1, level_1_key(pn), a2) {
                lemma_subrange_of_suffix(avail, a2, a1);
            }
        }
    }
}

/// The frames that back the heap pages are pairwise distinct when the frames
/// on offer are, and each of them was on offer.
pub proof fn lemma_heap_frames_distinct(t: PageTables, avail: Seq<PhysFrame>, i: int)
    requires
        avail.no_duplicates(),
    ensures
        heap_frames_from(t, avail, i).no_duplicates(),
        forall|x: PhysFrame| #[trigger] heap_frames_from(t, avail, i).contains(x) ==> avail.contains(x),
    decreases HEAP_PAGES - i,
{
    if i < HEAP_PAGES && avail.len() > 0 {
        let rest_avail = avail.drop_first();
        let (t1, a1, r) = map_to_result(t, rest_avail, heap_page(i), avail[0], PRESENT | WRITABLE);
        lemma_map_to_suffix(t, rest_avail, heap_page(i), avail[0], PRESENT | WRITABLE);
        let off = avail.len() - a1.len();
        assert forall|k: int| 0 <= k < a1.len() implies #[trigger] a1[k] == avail[k + off] by {
            assert(a1[k] == rest_avail[k + rest_avail.len() - a1.len()]);
        }
        assert(a1.no_duplicates()) by {
            assert forall|x: int, y: int| 0 <= x < a1.len() && 0 <= y < a1.len() && x != y implies a1[x] != a1[y] by {
                assert(a1[x] == avail[x + off] && a1[y] == avail[y + off]);
            }
        }
        lemma_heap_frames_distinct(t1, a1, i + 1);
        let rest = heap_frames_from(t1, a1, i + 1);
        let fr = heap_frames_from(t, avail, i);
        assert(fr == seq![avail[0]] + rest);
        assert(!rest.contains(avail[0])) by {
            if rest.contains(avail[0]) {
                assert(a1.contains(avail[0]));
                let k = choose|k: int| 0 <= k < a1.len() && a1[k] == avail[0];
                assert(a1[k] == avail[k + off]);
                assert(off >= 1);
            }
        }
        assert forall|x: PhysFrame| #[trigger] fr.contains(x) implies avail.contains(x) by {
            if x != avail[0] {
                assert(rest.contains(x));
                assert(a1.contains(x));
                let k = choose|k: int| 0 <= k < a1.len() && a1[k] == x;
                assert(avail[k + off] == x);
            } else {
                assert(avail[0] == x);
            }
        }
        assert forall|x: int, y: int| 0 <= x < fr.len() && 0 <= y < fr.len() && x != y implies fr[x] != fr[y] by {
            if x > 0 && y > 0 {
                assert(fr[x] == rest[x - 1] && fr[y] == rest[y - 1]);
            } else if x == 0 {
                assert(fr[y] == rest[y - 1]);
                assert(rest.contains(fr[y]));
            } else {
                assert(fr[x] == rest[x - 1]);
                assert(rest.contains(fr[x]));
            }
        }
    }
}

/// The heap is fully backed once `heap_map_from` succeeds: every address of
/// the heap translates to a physical address.
pub proof fn lemma_heap_backed(t: PageTables, avail: Seq<PhysFrame>)
    requires
        heap_map_from(t, avail, 0).2 is Ok,
    ensures
        heap_frames_from(t, avail, 0).len() == HEAP_PAGES,
        forall|k: int, offset: int|
            0 <= k < HEAP_PAGES && 0 <= offset < 4096 ==> #[trigger] translate(
                heap_map_from(t, avail, 0).0,
                (heap_page(k).start_address + offset) as u64,
            ) == Some(#[trigger] heap_frames_from(t, avail, 0)[k].start_address + offset),
        forall|addr: u64|
            HEAP_START <= addr < HEAP_START + HEAP_SIZE ==> #[trigger] translate(
                heap_map_from(t, avail, 0).0,
                addr,
            ) is Some,
{
    lemma_heap_map_from(t, avail, 0);
    assert forall|k: int, offset: int| 0 <= k < HEAP_PAGES && 0 <= offset < 4096 implies #[trigger] translate(
        heap_map_from(t, avail, 0).0,
        (heap_page(k).start_address + offset) as u64,
    ) == Some(#[trigger] heap_frames_from(t, avail, 0)[k].start_address + offset) by {
        let base = heap_page(k).start_address as int;
        let addr = base + offset;
        assert(base == HEAP_START + k * 4096);
        assert(addr / 4096 == base / 4096 && addr % 4096 == offset) by (nonlinear_arith)
            requires
                base == HEAP_START + k * 4096,
                HEAP_START % 4096 == 0,
                0 <= offset < 4096,
                addr == base + offset,
        ;
        assert(page_number(addr as u64) == page_number(base as u64));
    }
    assert forall|addr: u64| HEAP_START <= addr < HEAP_START + HEAP_SIZE implies #[trigger] translate(
        heap_map_from(t, avail, 0).0,
        addr,
    ) is Some by {
        let j = (addr - HEAP_START) / 4096;
        assert(0 <= j < HEAP_PAGES);
        assert(page_number(addr) == page_number(heap_page(j).start_address));
    }
}

/// Runs the heap set-up of `HeapInit` against the page-table record `mapper`:
/// every heap page is mapped to a frame of its own, present and writable,
/// then the heap goes to `allocator`. Frames come from `frame_allocator`, for
/// the pages and for missing page tables alike. On failure the pages mapped so
/// far stay mapped and the allocator is left alone. On success the result
/// holds the pages that were mapped, in order.
pub fn init_heap<F: FrameAllocator, A: HeapAllocator>(
    mapper: &mut OffsetPageTable,
    frame_allocator: &mut F,
    allocator: &mut A,
) -> (r: Result<Vec<MapperFlush>, HeapInitError>)
    requires
        old(mapper).inv(),
        old(frame_allocator).inv(),
        old(allocator).heap_inv(),
        !old(allocator).heap_initialized(),
    ensures
        final(mapper).inv(),
        final(frame_allocator).inv(),
        final(mapper).tables() == heap_map_from(old(mapper).tables(), old(frame_allocator).available(), 0).0,
        final(frame_allocator).available() == heap_map_from(
            old(mapper).tables(),
            old(frame_allocator).available(),
            0,
        ).1,
        match r {
            Ok(flushes) => {
                &&& heap_map_from(old(mapper).tables(), old(frame_allocator).available(), 0).2 is Ok
                &&& flushes@ == Seq::new(HEAP_PAGES as nat, |i: int| MapperFlush { page: heap_page(i) })
                &&& final(allocator).heap_inv()
                &&& final(allocator).heap_initialized()
                &&& final(allocator).heap_region() == (HEAP_START, HEAP_SIZE)
                &&& final(allocator).heap_all_free()
                &&& forall|k: int, offset: int|
                    0 <= k < HEAP_PAGES && 0 <= offset < 4096 ==> #[trigger] translate(
                        final(mapper).tables(),
                        (heap_page(k).start_address + offset) as u64,
                    ) == Some(
                        #[trigger] heap_frames_from(old(mapper).tables(), old(frame_allocator).available(), 0)[k].start_address
                            + offset,
                    )
                &&& heap_frames_from(old(mapper).tables(), old(frame_allocator).available(), 0).no_duplicates()
                &&& forall|addr: u64|
                    HEAP_START <= addr < HEAP_START + HEAP_SIZE ==> #[trigger] translate(final(mapper).tables(), addr) is Some
            },
            Err(e) => {
                &&& heap_map_from(old(mapper).tables(), old(frame_allocator).available(), 0).2 == Err::<(), _>(e)
                &&& *final(allocator) == *old(allocator)
            },
        },
{
    let ghost t0 = mapper.tables();
    let ghost a0 = frame_allocator.available();
    let mut flushes: Vec<MapperFlush> = Vec::new();
    let mut setup = HeapInit::new();
    proof {
        frame_allocator.lemma_available_distinct();
    }
    loop
        invariant
            a0.no_duplicates(),
            mapper.inv(),
            frame_allocator.inv(),
            t0 == old(mapper).tables(),
            a0 == old(frame_allocator).available(),
            *allocator == *old(allocator),
            allocator.heap_inv(),
            !allocator.heap_initialized(),
            0 <= setup.page_index() <= HEAP_PAGES,
            heap_map_from(mapper.tables(), frame_allocator.available(), setup.page_index()) == heap_map_from(t0, a0, 0),
            flushes@ == Seq::new(setup.page_index() as nat, |k: int| MapperFlush { page: heap_page(k) }),
        decreases HEAP_PAGES - setup.page_index(),
    {
        let ghost i = setup.page_index();
        match setup.next_action(frame_allocator, allocator) {
            HeapInitAction::MapPage(page, frame) => {
                match mapper.map_to(page, frame, PRESENT | WRITABLE, frame_allocator) {
                    Ok(flush) => {
                        flushes.push(flush);
                        let _ = setup.map_outcome(Ok(()));
                        assert(flushes@ =~= Seq::new((i + 1) as nat, |k: int| MapperFlush { page: heap_page(k) }));
                    },
                    Err(e) => {
                        return match setup.map_outcome(Err(e)) {
                            Some(err) => Err(err),
                            None => Err(HeapInitError::FrameAllocationFailed),
                        };
                    },
                }
            },
            HeapInitAction::Done => {
                proof {
                    lemma_heap_backed(t0, a0);
                    lemma_heap_frames_distinct(t0, a0, 0);
                }
                return Ok(flushes);
            },
            HeapInitAction::Failed(e) => {
                return Err(e);
            },
        }
    }
}

/// The size and alignment of a memory block that is asked for.
#[derive(Clone, Copy, Debug, PartialEq, Eq, Structural)]
pub struct Layout {
    size: u64,
    align: u64,
}

/// Why a size and an alignment make no layout.
#[derive(Clone, Copy, Debug, PartialEq, Eq, Structural)]
pub struct LayoutError;

/// A size and an alignment make a layout when the alignment is a power of two
/// and the size, rounded up to the alignment, does not exceed `i64::MAX`.
pub open spec fn layout_valid(size: int, align: int) -> bool {
    &&& is_pow2(align)
    &&& size + align - 1 <= i64::MAX
}

impl Layout {
    pub closed spec fn spec_size(&self) -> u64 {
        self.size
    }

    pub closed spec fn spec_align(&self) -> u64 {
        self.align
    }

    /// Every layout satisfies the rules that `from_size_align` checks.
    pub closed spec fn wf(&self) -> bool {
        layout_valid(self.size as int, self.align as int)
    }

    /// Makes a layout of `size` bytes aligned to `align`.
    pub fn from_size_align(size: u64, align: u64) -> (r: Result<Layout, LayoutError>)
        ensures
            r is Ok <==> layout_valid(size as int, align as int),
            r matches Ok(l) ==> l.wf() && l.spec_size() == size && l.spec_align() == align,
    {
        if !is_power_of_two(align) {
            return Err(LayoutError);
        }
        if align - 1 > i64::MAX as u64 || size > (i64::MAX as u64) - (align - 1) {
            return Err(LayoutError);
        }
        Ok(Layout { size, align })
    }

    #[verifier::when_used_as_spec(spec_size)]
    pub fn size(&self) -> (r: u64)
        ensures
            r == self.spec_size(),
    {
        self.size
    }

    #[verifier::when_used_as_spec(spec_align)]
    pub fn align(&self) -> (r: u64)
        ensures
            r == self.spec_align(),
    {
        self.align
    }

    /// What every layout satisfies.
    pub proof fn lemma_wf(&self)
        requires
            self.wf(),
        ensures
            is_pow2(self.align() as int),
            self.align() >= 1,
            self.size() + self.align() - 1 <= i64::MAX,
    {
    }
}

} // verus!
