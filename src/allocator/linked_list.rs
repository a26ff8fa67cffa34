use vstd::prelude::*;

use crate::addr::{
    align_up, align_up_spec, is_pow2, lemma_align_up, lemma_mod_facts, lemma_multiple_transitive,
    lemma_pow2_divides, lemma_pow2_multiple_of_8,
};
use crate::allocator::{HeapAllocator, Layout};

verus! {

/// Bytes that the header of a free block takes: its size and the link to the
/// next block.
pub const NODE_SIZE: u64 = 16;

/// Alignment that the header of a free block needs.
pub const NODE_ALIGN: u64 = 8;

/// A free block of the heap: `size` bytes starting at `start`.
#[derive(Clone, Copy, Debug, PartialEq, Eq, Structural)]
pub struct ListNode {
    pub start: u64,
    pub size: u64,
}

/// A free block can hold its own header and ends inside the address space.
pub open spec fn node_wf(n: ListNode) -> bool {
    &&& n.start % NODE_ALIGN == 0
    &&& n.size >= NODE_SIZE
    &&& n.start + n.size <= u64::MAX
}

/// The byte ranges `[a, a + a_size)` and `[b, b + b_size)` do not overlap.
pub open spec fn ranges_disjoint(a: int, a_size: int, b: int, b_size: int) -> bool {
    a + a_size <= b || b + b_size <= a
}

/// No free block of `list` overlaps `[start, start + size)`.
pub open spec fn disjoint_from_list(list: Seq<ListNode>, start: int, size: int) -> bool {
    forall|i: int|
        0 <= i < list.len() ==> ranges_disjoint(
            (#[trigger] list[i]).start as int,
            list[i].size as int,
            start,
            size,
        )
}

/// No two free blocks of `list` overlap.
pub open spec fn list_disjoint(list: Seq<ListNode>) -> bool {
    forall|i: int, j: int|
        #![trigger list[i], list[j]]
        0 <= i < list.len() && 0 <= j < list.len() && i != j ==> ranges_disjoint(
            list[i].start as int,
            list[i].size as int,
            list[j].start as int,
            list[j].size as int,
        )
}

/// The range `[start, start + size)` lies inside the heap `region`, given as
/// its start and its size.
pub open spec fn range_within(start: int, size: int, region: (u64, u64)) -> bool {
    region.0 <= start && start + size <= region.0 + region.1
}

/// Whether `[start, start + size)` lies inside `region`.
pub fn range_fits(start: u64, size: u64, region: (u64, u64)) -> (r: bool)
    ensures
        r == range_within(start as int, size as int, region),
{
    start >= region.0 && size <= region.1 && start - region.0 <= region.1 - size
}

/// Where an allocation of `size` bytes aligned to `align` would start inside
/// the free block `n`, if the block can hold it. What is left behind the
/// allocation must be empty or large enough for a header of its own.
pub open spec fn fit_start(n: ListNode, size: int, align: int) -> Option<int> {
    let start = align_up_spec(n.start as int, align);
    let end = start + size;
    let region_end = n.start + n.size;
    if end > region_end {
        None
    } else if region_end - end > 0 && region_end - end < NODE_SIZE {
        None
    } else {
        Some(start)
    }
}

/// Index of the first block of `list` that can hold the allocation, or the
/// length of the list when none can.
pub open spec fn first_fit(list: Seq<ListNode>, size: int, align: int) -> int
    decreases list.len(),
{
    if list.len() == 0 {
        0
    } else if fit_start(list[0], size, align) is Some {
        0
    } else {
        1 + first_fit(list.drop_first(), size, align)
    }
}

/// The alignment used for a request aligned to `align`: at least that of a
/// block header.
pub open spec fn adjusted_align_of(align: int) -> int {
    if align < NODE_ALIGN {
        NODE_ALIGN as int
    } else {
        align
    }
}

/// The size used for a request of `size` bytes aligned to `align`: rounded up
/// to the adjusted alignment, and at least the size of a block header.
pub open spec fn adjusted_size_of(size: int, align: int) -> int {
    let padded = align_up_spec(size, adjusted_align_of(align));
    if padded < NODE_SIZE {
        NODE_SIZE as int
    } else {
        padded
    }
}

/// The alignment actually used for `l`.
pub open spec fn adjusted_align(l: Layout) -> int {
    adjusted_align_of(l.spec_align() as int)
}

/// The size actually used for `l`.
pub open spec fn adjusted_size(l: Layout) -> int {
    adjusted_size_of(l.spec_size() as int, l.spec_align() as int)
}

/// The free list and the result after allocating `size` bytes aligned to
/// `align` (both already adjusted) from the free list `list`: the first block
/// that fits is taken out, and what is left behind the allocation goes back to
/// the front of the list.
pub open spec fn alloc_result(list: Seq<ListNode>, size: int, align: int) -> (Seq<ListNode>, Option<u64>) {
    let i = first_fit(list, size, align);
    if i < list.len() {
        let node = list[i];
        let start = fit_start(node, size, align)->Some_0;
        let end = start + size;
        let excess = node.start + node.size - end;
        let rest = list.remove(i);
        if excess > 0 {
            (seq![ListNode { start: end as u64, size: excess as u64 }] + rest, Some(start as u64))
        } else {
            (rest, Some(start as u64))
        }
    } else {
        (list, None)
    }
}

/// The free list after the block at `ptr` allocated for `l` is given back.
pub open spec fn dealloc_result(list: Seq<ListNode>, ptr: u64, l: Layout) -> Seq<ListNode> {
    seq![ListNode { start: ptr, size: adjusted_size(l) as u64 }] + list
}

proof fn lemma_first_fit(list: Seq<ListNode>, size: int, align: int, i: int)
    requires
        0 <= i <= list.len(),
        forall|j: int| 0 <= j < i ==> fit_start(#[trigger] list[j], size, align) is None,
        i < list.len() ==> fit_start(list[i], size, align) is Some,
    ensures
        first_fit(list, size, align) == i,
    decreases i,
{
    if i > 0 {
        assert(fit_start(list[0], size, align) is None);
        let rest = list.drop_first();
        assert forall|j: int| 0 <= j < i - 1 implies fit_start(#[trigger] rest[j], size, align) is None by {
            assert(rest[j] == list[j + 1]);
        }
        lemma_first_fit(rest, size, align, i - 1);
    }
}

proof fn lemma_first_fit_bounds(list: Seq<ListNode>, size: int, align: int)
    ensures
        0 <= first_fit(list, size, align) <= list.len(),
        first_fit(list, size, align) < list.len() ==> fit_start(
            list[first_fit(list, size, align)],
            size,
            align,
        ) is Some,
        forall|j: int|
            0 <= j < first_fit(list, size, align) ==> fit_start(#[trigger] list[j], size, align) is None,
    decreases list.len(),
{
    if list.len() > 0 && fit_start(list[0], size, align) is None {
        let rest = list.drop_first();
        lemma_first_fit_bounds(rest, size, align);
        assert forall|j: int| 0 <= j < first_fit(list, size, align) implies fit_start(
            #[trigger] list[j],
            size,
            align,
        ) is None by {
            if j > 0 {
                assert(list[j] == rest[j - 1]);
            }
        }
    }
}

/// The adjusted size of a layout is at least its size.
pub proof fn lemma_adjusted_size(l: Layout)
    requires
        l.wf(),
    ensures
        adjusted_size(l) >= l.spec_size(),
        adjusted_size(l) >= NODE_SIZE,
{
    l.lemma_wf();
    lemma_align_up(l.spec_size() as int, adjusted_align(l));
}

/// First fit reuses a freed block: when the block at `ptr` that was allocated
/// for `l` is given back, the next allocation for `l` returns `ptr` again and
/// leaves the free list as it was before the block was given back.
#[verifier::rlimit(30)]
pub proof fn lemma_first_fit_reuse(list: Seq<ListNode>, ptr: u64, l: Layout)
    requires
        l.wf(),
        ptr as int % adjusted_align(l) == 0,
        ptr + adjusted_size(l) <= u64::MAX,
    ensures
        alloc_result(dealloc_result(list, ptr, l), adjusted_size(l), adjusted_align(l)) == (
            list,
            Some(ptr),
        ),
{
    let freed = dealloc_result(list, ptr, l);
    let size = adjusted_size(l);
    let align = adjusted_align(l);
    l.lemma_wf();
    lemma_align_up(ptr as int, align);
    lemma_align_up(l.spec_size() as int, align);
    assert(fit_start(freed[0], size, align) == Some(ptr as int));
    lemma_first_fit(freed, size, align, 0);
    assert(freed.remove(0) =~= list);
}

impl ListNode {
    /// A free block of `size` bytes at `start`.
    fn new(start: u64, size: u64) -> (r: ListNode)
        ensures
            r.start == start && r.size == size,
    {
        ListNode { start, size }
    }

    fn start_addr(&self) -> (r: u64)
        ensures
            r == self.start,
    {
        self.start
    }

    fn end_addr(&self) -> (r: u64)
        requires
            self.start + self.size <= u64::MAX,
        ensures
            r == self.start + self.size,
    {
        self.start_addr() + self.size
    }
}

/// A heap allocator that keeps the free blocks of the heap in a list, newest
/// first, and allocates from the first block that fits.
pub struct LinkedListAllocator {
    regions: Vec<ListNode>,
    initialized: Ghost<bool>,
    region: (u64, u64),
}

impl LinkedListAllocator {
    /// The free blocks, in list order.
    pub closed spec fn free_list(&self) -> Seq<ListNode> {
        self.regions@
    }

    /// Whether the allocator has been given its heap.
    pub closed spec fn is_initialized(&self) -> bool {
        self.initialized@
    }

    /// The heap the allocator was given: its start and its size in bytes.
    pub closed spec fn region(&self) -> (u64, u64) {
        self.region
    }

    /// Every free block can hold its header, and no two free blocks overlap.
    pub open spec fn inv(&self) -> bool {
        &&& forall|i: int| 0 <= i < self.free_list().len() ==> node_wf(#[trigger] self.free_list()[i])
        &&& list_disjoint(self.free_list())
        &&& forall|i: int|
            0 <= i < self.free_list().len() ==> range_within(
                (#[trigger] self.free_list()[i]).start as int,
                self.free_list()[i].size as int,
                self.region(),
            )
        &&& !self.is_initialized() ==> self.region() == (0u64, 0u64)
    }

    /// Creates an empty allocator, not yet given a heap.
    pub fn new() -> (r: Self)
        ensures
            r.inv(),
            r.free_list() == Seq::<ListNode>::empty(),
            !r.is_initialized(),
    {
        LinkedListAllocator { regions: Vec::new(), initialized: Ghost(false), region: (0, 0) }
    }

    /// Gives the allocator the heap `[heap_start, heap_start + heap_size)`,
    /// which must be unused. An allocator is initialized once only.
    pub fn init(&mut self, heap_start: u64, heap_size: u64)
        requires
            !old(self).is_initialized(),
            old(self).inv(),
            node_wf(ListNode { start: heap_start, size: heap_size }),
        ensures
            final(self).inv(),
            final(self).is_initialized(),
            final(self).region() == (heap_start, heap_size),
            final(self).free_list() == seq![ListNode { start: heap_start, size: heap_size }],
    {
        proof {
            if self.free_list().len() > 0 {
                assert(node_wf(self.free_list()[0]));
                assert(range_within(self.free_list()[0].start as int, self.free_list()[0].size as int, self.region()));
            }
        }
        assert(self.free_list().len() == 0);
        self.initialized = Ghost(true);
        self.region = (heap_start, heap_size);
        self.add_free_region(heap_start, heap_size);
        assert(self.free_list() =~= seq![ListNode { start: heap_start, size: heap_size }]);
    }

    /// Allocates a block for `layout` from the first free block that can hold
    /// it; `None` when no free block can.
    pub fn allocate(&mut self, layout: Layout) -> (r: Option<u64>)
        requires
            old(self).inv(),
            layout.wf(),
        ensures
            final(self).inv(),
            final(self).is_initialized() == old(self).is_initialized(),
            (final(self).free_list(), r) == alloc_result(
                old(self).free_list(),
                adjusted_size(layout),
                adjusted_align(layout),
            ),
            r matches Some(start) ==> start % layout.spec_align() == 0,
            r matches Some(start) ==> start % NODE_ALIGN == 0 && start + adjusted_size(layout) <= u64::MAX,
            r matches Some(start) ==> range_within(start as int, adjusted_size(layout), old(self).region()),
            final(self).region() == old(self).region(),
            r matches Some(start) ==> disjoint_from_list(
                final(self).free_list(),
                start as int,
                adjusted_size(layout),
            ),
            forall|a: int, b: int|
                b >= 0 && #[trigger] disjoint_from_list(old(self).free_list(), a, b) ==> {
                    &&& disjoint_from_list(final(self).free_list(), a, b)
                    &&& r matches Some(start) ==> ranges_disjoint(a, b, start as int, adjusted_size(layout))
                },
    {
        let (size, align) = Self::size_align(layout);
        match self.find_region(size, align) {
            Some((region, alloc_start)) => {
                proof {
                    lemma_align_up(region.start as int, align as int);
                    lemma_multiple_transitive(alloc_start as int, align as int, NODE_ALIGN as int);
                    if size != NODE_SIZE {
                        lemma_multiple_transitive(size as int, align as int, NODE_ALIGN as int);
                    }
                    lemma_first_fit_bounds(old(self).free_list(), size as int, align as int);
                    layout.lemma_wf();
                    if layout.spec_align() >= NODE_ALIGN {
                        lemma_pow2_multiple_of_8(align as int);
                    }
                    lemma_pow2_divides(layout.spec_align() as int, align as int);
                    lemma_multiple_transitive(
                        alloc_start as int,
                        align as int,
                        layout.spec_align() as int,
                    );
                }
                let alloc_end = alloc_start + size;
                let excess_size = region.end_addr() - alloc_end;
                let ghost rest = self.free_list();
                proof {
                    let old_list = old(self).free_list();
                    let i = first_fit(old_list, size as int, align as int);
                    assert(region == old_list[i]);
                    assert(range_within(old_list[i].start as int, old_list[i].size as int, self.region()));
                    assert forall|a: int, b: int|
                        b >= 0 && #[trigger] disjoint_from_list(old_list, a, b) implies disjoint_from_list(rest, a, b)
                            && ranges_disjoint(region.start as int, region.size as int, a, b) by {
                        assert(ranges_disjoint(
                            old_list[i].start as int,
                            old_list[i].size as int,
                            a,
                            b,
                        ));
                        assert forall|k: int| 0 <= k < rest.len() implies ranges_disjoint(
                            (#[trigger] rest[k]).start as int,
                            rest[k].size as int,
                            a,
                            b,
                        ) by {
                            let k0 = if k < i { k } else { k + 1 };
                            assert(rest[k] == old_list[k0]);
                        }
                    }
                }
                if excess_size > 0 {
                    assert(disjoint_from_list(rest, alloc_end as int, excess_size as int));
                    self.add_free_region(alloc_end, excess_size);
                    assert forall|k: int| 0 <= k < self.free_list().len() implies ranges_disjoint(
                        (#[trigger] self.free_list()[k]).start as int,
                        self.free_list()[k].size as int,
                        alloc_start as int,
                        size as int,
                    ) by {
                        if k > 0 {
                            assert(self.free_list()[k] == rest[k - 1]);
                        }
                    }
                    assert forall|a: int, b: int|
                        b >= 0 && #[trigger] disjoint_from_list(old(self).free_list(), a, b) implies disjoint_from_list(
                            self.free_list(),
                            a,
                            b,
                        ) by {
                        assert(disjoint_from_list(rest, a, b));
                        assert forall|k: int| 0 <= k < self.free_list().len() implies ranges_disjoint(
                            (#[trigger] self.free_list()[k]).start as int,
                            self.free_list()[k].size as int,
                            a,
                            b,
                        ) by {
                            if k > 0 {
                                assert(self.free_list()[k] == rest[k - 1]);
                            }
                        }
                    }
                }
                Some(alloc_start)
            },
            None => None,
        }
    }

    /// The heap the allocator was given: its start and its size in bytes.
    pub fn heap_bounds(&self) -> (r: (u64, u64))
        ensures
            r == self.region(),
    {
        self.region
    }

    /// Whether a block at `ptr` for `layout` is one that `deallocate` can take
    /// back: aligned for a header, inside the address space and inside the
    /// heap. That it is not free already is the caller's to know.
    pub fn can_deallocate(&self, ptr: u64, layout: Layout) -> (r: bool)
        requires
            layout.wf(),
        ensures
            r == (ptr % NODE_ALIGN == 0 && ptr + adjusted_size(layout) <= u64::MAX && range_within(
                ptr as int,
                adjusted_size(layout),
                self.region(),
            )),
    {
        let (size, _) = Self::size_align(layout);
        ptr % NODE_ALIGN == 0 && ptr <= u64::MAX - size && range_fits(ptr, size, self.region)
    }

    /// Gives back the block at `ptr` that was allocated for `layout`: it goes
    /// to the front of the free list, without merging with its neighbours.
    pub fn deallocate(&mut self, ptr: u64, layout: Layout)
        requires
            old(self).inv(),
            layout.wf(),
            ptr % NODE_ALIGN == 0,
            ptr + adjusted_size(layout) <= u64::MAX,
            disjoint_from_list(old(self).free_list(), ptr as int, adjusted_size(layout)),
            range_within(ptr as int, adjusted_size(layout), old(self).region()),
        ensures
            final(self).inv(),
            final(self).is_initialized() == old(self).is_initialized(),
            final(self).region() == old(self).region(),
            final(self).free_list() == dealloc_result(old(self).free_list(), ptr, layout),
    {
        let (size, _) = Self::size_align(layout);
        self.add_free_region(ptr, size)
    }

    /// The size and alignment used for `layout`, adjusted so that the block
    /// can hold a header when it is given back.
    pub(crate) fn size_align(layout: Layout) -> (r: (u64, u64))
        requires
            layout.wf(),
        ensures
            r.0 == adjusted_size(layout),
            r.1 == adjusted_align(layout),
            r.0 >= NODE_SIZE,
            r.0 % r.1 == 0 || r.0 == NODE_SIZE,
            r.1 % NODE_ALIGN == 0,
            is_pow2(r.1 as int),
    {
        proof {
            layout.lemma_wf();
        }
        let align = if layout.align() < NODE_ALIGN {
            NODE_ALIGN
        } else {
            layout.align()
        };
        proof {
            lemma_align_up(layout.size() as int, align as int);
            if layout.spec_align() >= NODE_ALIGN {
                lemma_pow2_multiple_of_8(align as int);
            } else {
                reveal_with_fuel(is_pow2, 4);
            }
        }
        let padded = align_up(layout.size(), align);
        let size = if padded < NODE_SIZE {
            NODE_SIZE
        } else {
            padded
        };
        (size, align)
    }

    /// Adds the free block `[addr, addr + size)` to the front of the list.
    fn add_free_region(&mut self, addr: u64, size: u64)
        requires
            old(self).inv(),
            node_wf(ListNode { start: addr, size }),
            disjoint_from_list(old(self).free_list(), addr as int, size as int),
            range_within(addr as int, size as int, old(self).region()),
        ensures
            final(self).inv(),
            final(self).is_initialized() == old(self).is_initialized(),
            final(self).region() == old(self).region(),
            final(self).free_list() == seq![ListNode { start: addr, size }] + old(self).free_list(),
    {
        let node = ListNode::new(addr, size);
        self.regions.insert(0, node);
        let ghost old_list = old(self).free_list();
        assert(self.regions@ =~= seq![node] + old(self).regions@);
        assert forall|i: int| 0 <= i < self.free_list().len() implies node_wf(
            #[trigger] self.free_list()[i],
        ) && range_within(self.free_list()[i].start as int, self.free_list()[i].size as int, self.region()) by {
            if i > 0 {
                assert(self.free_list()[i] == old_list[i - 1]);
            }
        }
        assert forall|i: int, j: int|
            #![trigger self.free_list()[i], self.free_list()[j]]
            0 <= i < self.free_list().len() && 0 <= j < self.free_list().len() && i != j implies ranges_disjoint(
            self.free_list()[i].start as int,
            self.free_list()[i].size as int,
            self.free_list()[j].start as int,
            self.free_list()[j].size as int,
        ) by {
            if i > 0 {
                assert(self.free_list()[i] == old_list[i - 1]);
            }
            if j > 0 {
                assert(self.free_list()[j] == old_list[j - 1]);
            }
        }
    }

    /// Looks for the first free block that can hold `size` bytes aligned to
    /// `align`, takes it out of the list, and returns it with the start of the
    /// allocation inside it.
    fn find_region(&mut self, size: u64, align: u64) -> (r: Option<(ListNode, u64)>)
        requires
            old(self).inv(),
            align > 0,
        ensures
            final(self).inv(),
            final(self).is_initialized() == old(self).is_initialized(),
            final(self).region() == old(self).region(),
            ({
                let i = first_fit(old(self).free_list(), size as int, align as int);
                if i < old(self).free_list().len() {
                    &&& r matches Some((node, start)) && node == old(self).free_list()[i]
                        && Some(start as int) == fit_start(node, size as int, align as int)
                        && disjoint_from_list(final(self).free_list(), node.start as int, node.size as int)
                    &&& final(self).free_list() == old(self).free_list().remove(i)
                } else {
                    r is None && final(self).free_list() == old(self).free_list()
                }
            }),
    {
        let mut i: usize = 0;
        while i < self.regions.len()
            invariant
                self.regions@ == old(self).regions@,
                self.initialized == old(self).initialized,
                self.region == old(self).region,
                self.inv(),
                old(self).inv(),
                0 <= i <= self.regions@.len(),
                align > 0,
                forall|j: int|
                    0 <= j < i ==> fit_start(#[trigger] self.regions@[j], size as int, align as int) is None,
            decreases self.regions@.len() - i,
        {
            assert(node_wf(self.free_list()[i as int]));
            match Self::alloc_from_region(&self.regions[i], size, align) {
                Ok(alloc_start) => {
                    proof {
                        lemma_first_fit(self.regions@, size as int, align as int, i as int);
                    }
                    let node = self.regions.remove(i);
                    let ghost old_list = old(self).free_list();
                    assert forall|k: int| 0 <= k < self.free_list().len() implies node_wf(
                        #[trigger] self.free_list()[k],
                    ) && range_within(self.free_list()[k].start as int, self.free_list()[k].size as int, self.region()) by {
                        if k < i {
                            assert(self.free_list()[k] == old_list[k]);
                        } else {
                            assert(self.free_list()[k] == old_list[k + 1]);
                        }
                    }
                    assert forall|k: int, l: int|
                        #![trigger self.free_list()[k], self.free_list()[l]]
                        0 <= k < self.free_list().len() && 0 <= l < self.free_list().len() && k != l implies ranges_disjoint(
                        self.free_list()[k].start as int,
                        self.free_list()[k].size as int,
                        self.free_list()[l].start as int,
                        self.free_list()[l].size as int,
                    ) by {
                        let k0 = if k < i { k } else { k + 1 };
                        let l0 = if l < i { l } else { l + 1 };
                        assert(self.free_list()[k] == old_list[k0]);
                        assert(self.free_list()[l] == old_list[l0]);
                    }
                    assert forall|k: int| 0 <= k < self.free_list().len() implies ranges_disjoint(
                        (#[trigger] self.free_list()[k]).start as int,
                        self.free_list()[k].size as int,
                        node.start as int,
                        node.size as int,
                    ) by {
                        let k0 = if k < i { k } else { k + 1 };
                        assert(self.free_list()[k] == old_list[k0]);
                        assert(node == old_list[i as int]);
                    }
                    return Some((node, alloc_start));
                },
                Err(()) => {},
            }
            i = i + 1;
        }
        proof {
            lemma_first_fit(self.regions@, size as int, align as int, i as int);
        }
        None
    }

    /// The start of an allocation of `size` bytes aligned to `align` inside
    /// `region`, or an error when the region cannot hold it.
    fn alloc_from_region(region: &ListNode, size: u64, align: u64) -> (r: Result<u64, ()>)
        requires
            node_wf(*region),
            align > 0,
        ensures
            match r {
                Ok(start) => fit_start(*region, size as int, align as int) == Some(start as int),
                Err(()) => fit_start(*region, size as int, align as int) is None,
            },
    {
        let region_start = region.start_addr();
        let region_end = region.end_addr();
        let remainder = region_start % align;
        proof {
            lemma_mod_facts(region_start as int, align as int);
        }
        if remainder != 0 && region_start - remainder > u64::MAX - align {
            // the aligned start lies beyond the address space
            return Err(());
        }
        let alloc_start = align_up(region_start, align);
        let alloc_end = match alloc_start.checked_add(size) {
            Some(end) => end,
            None => return Err(()),
        };
        if alloc_end > region_end {
            // region too small
            return Err(());
        }
        let excess_size = region_end - alloc_end;
        if excess_size > 0 && excess_size < NODE_SIZE {
            // rest of region too small to hold a header
            return Err(());
        }
        Ok(alloc_start)
    }
}

impl HeapAllocator for LinkedListAllocator {
    open spec fn heap_region(&self) -> (u64, u64) {
        self.region()
    }

    open spec fn heap_all_free(&self) -> bool {
        self.free_list() == seq![ListNode { start: self.region().0, size: self.region().1 }]
    }

    open spec fn heap_inv(&self) -> bool {
        self.inv() && (!self.is_initialized() ==> self.free_list().len() == 0)
    }

    open spec fn heap_initialized(&self) -> bool {
        self.is_initialized()
    }

    fn init_heap_region(&mut self, heap_start: u64, heap_size: u64) {
        LinkedListAllocator::init(self, heap_start, heap_size)
    }
}

} // verus!
