use vstd::prelude::*;

use crate::addr::{is_pow2, lemma_multiple_transitive, lemma_pow2_divides};
use crate::allocator::linked_list::{
    adjusted_align, adjusted_align_of, adjusted_size, adjusted_size_of, alloc_result,
    dealloc_result, disjoint_from_list, range_fits, range_within, lemma_adjusted_size, lemma_first_fit_reuse, list_disjoint, node_wf, ranges_disjoint,
    LinkedListAllocator, ListNode, NODE_ALIGN,
};
use crate::allocator::{HeapAllocator, Layout};

verus! {

/// Number of size classes.
pub const BLOCK_CLASSES: usize = 9;

/// Block size of the smallest class; each next class doubles it.
pub const SMALLEST_BLOCK: u64 = 8;

/// Block size of size class `i`: 8, 16, 32, ... 2048 bytes.
pub open spec fn block_size(i: int) -> int
    decreases i,
{
    if i <= 0 {
        SMALLEST_BLOCK as int
    } else {
        2 * block_size(i - 1)
    }
}

/// What a request for `l` needs from a block: its size or its alignment,
/// whichever is larger.
pub open spec fn required_block_size(l: Layout) -> int {
    if l.spec_size() >= l.spec_align() {
        l.spec_size() as int
    } else {
        l.spec_align() as int
    }
}

/// The first class from `i` on whose blocks are at least `required` bytes.
pub open spec fn class_from(i: int, required: int) -> Option<int>
    decreases BLOCK_CLASSES - i,
{
    if i >= BLOCK_CLASSES {
        None
    } else if block_size(i) >= required {
        Some(i)
    } else {
        class_from(i + 1, required)
    }
}

/// The size class that serves `l`: the smallest whose blocks are large enough,
/// or none when the request is larger than every class.
pub open spec fn size_class(l: Layout) -> Option<int> {
    class_from(0, required_block_size(l))
}

proof fn lemma_block_size(i: int)
    requires
        0 <= i,
    ensures
        block_size(i) >= SMALLEST_BLOCK,
        is_pow2(block_size(i)),
        block_size(i) % NODE_ALIGN as int == 0,
        forall|j: int| 0 <= j < i ==> block_size(j) < #[trigger] block_size(i),
    decreases i,
{
    if i > 0 {
        lemma_block_size(i - 1);
        assert(block_size(i) / 2 == block_size(i - 1));
    } else {
        reveal_with_fuel(is_pow2, 4);
    }
}

proof fn lemma_block_size_max(i: int)
    requires
        0 <= i < BLOCK_CLASSES,
    ensures
        block_size(i) <= 2048,
{
    reveal_with_fuel(block_size, 9);
}

proof fn lemma_class_from(i: int, required: int)
    requires
        0 <= i,
    ensures
        class_from(i, required) matches Some(c) ==> i <= c < BLOCK_CLASSES && block_size(c)
            >= required && forall|j: int| i <= j < c ==> #[trigger] block_size(j) < required,
        class_from(i, required) is None ==> forall|j: int|
            i <= j < BLOCK_CLASSES ==> #[trigger] block_size(j) < required,
    decreases BLOCK_CLASSES - i,
{
    if i < BLOCK_CLASSES && block_size(i) < required {
        lemma_class_from(i + 1, required);
    }
}

/// Which class serves a request, stated directly: the chosen class is large
/// enough, no smaller class is, and a request that no class serves is larger
/// than the largest block.
pub proof fn lemma_size_class(l: Layout)
    ensures
        size_class(l) matches Some(c) ==> 0 <= c < BLOCK_CLASSES && block_size(c)
            >= required_block_size(l) && forall|j: int|
            0 <= j < c ==> #[trigger] block_size(j) < required_block_size(l),
        size_class(l) is None <==> required_block_size(l) > 2048,
{
    lemma_class_from(0, required_block_size(l));
    lemma_block_size(BLOCK_CLASSES - 1);
    reveal_with_fuel(block_size, 9);
}

/// Choose the best fitting block size for a given layout: the index of the
/// smallest size class whose blocks can hold it.
pub fn best_fit_index(layout: &Layout) -> (r: Option<usize>)
    ensures
        r matches Some(i) ==> size_class(*layout) == Some(i as int),
        r is None ==> size_class(*layout) is None,
{
    let required = if layout.size() >= layout.align() {
        layout.size()
    } else {
        layout.align()
    };
    assert(required == required_block_size(*layout));
    let mut i: usize = 0;
    let mut block: u64 = SMALLEST_BLOCK;
    while i < BLOCK_CLASSES
        invariant
            0 <= i <= BLOCK_CLASSES,
            i < BLOCK_CLASSES ==> block == block_size(i as int),
            class_from(0, required as int) == class_from(i as int, required as int),
            required == required_block_size(*layout),
        decreases BLOCK_CLASSES - i,
    {
        proof {
            lemma_block_size(i as int);
            lemma_block_size_max(i as int);
        }
        if block >= required {
            return Some(i);
        }
        i = i + 1;
        if i < BLOCK_CLASSES {
            block = block * 2;
        }
    }
    None
}

/// The block size of class `index`.
fn class_block_size(index: usize) -> (r: u64)
    requires
        index < BLOCK_CLASSES,
    ensures
        r == block_size(index as int),
{
    let mut i: usize = 0;
    let mut block: u64 = SMALLEST_BLOCK;
    while i < index
        invariant
            0 <= i <= index < BLOCK_CLASSES,
            block == block_size(i as int),
        decreases index - i,
    {
        proof {
            lemma_block_size_max(i as int + 1);
        }
        block = block * 2;
        i = i + 1;
    }
    block
}

/// The size classes, the fallback free list and the result after allocating
/// `l`: a free block of the chosen class when there is one, else a new block of
/// the class's size carved from the fallback allocator; a request that no
/// class serves goes to the fallback allocator as it is.
pub open spec fn fsb_alloc_result(blocks: Seq<Seq<u64>>, fallback: Seq<ListNode>, l: Layout) -> (
    Seq<Seq<u64>>,
    Seq<ListNode>,
    Option<u64>,
) {
    match size_class(l) {
        Some(i) => if blocks[i].len() > 0 {
            (blocks.update(i, blocks[i].drop_last()), fallback, Some(blocks[i].last()))
        } else {
            let size = block_size(i);
            let (f, r) = alloc_result(fallback, adjusted_size_of(size, size), adjusted_align_of(size));
            (blocks, f, r)
        },
        None => {
            let (f, r) = alloc_result(fallback, adjusted_size(l), adjusted_align(l));
            (blocks, f, r)
        },
    }
}

/// The size classes and the fallback free list after the block at `ptr`
/// allocated for `l` is given back: to the free list of its class, or to the
/// fallback allocator when no class serves `l`.
pub open spec fn fsb_dealloc_result(blocks: Seq<Seq<u64>>, fallback: Seq<ListNode>, ptr: u64, l: Layout) -> (
    Seq<Seq<u64>>,
    Seq<ListNode>,
) {
    match size_class(l) {
        Some(i) => (blocks.update(i, blocks[i].push(ptr)), fallback),
        None => (blocks, dealloc_result(fallback, ptr, l)),
    }
}

/// What a block given back for `l` satisfies when it was allocated for `l`.
pub open spec fn dealloc_ok(ptr: u64, l: Layout) -> bool {
    match size_class(l) {
        Some(i) => ptr as int % block_size(i) == 0,
        None => ptr % NODE_ALIGN == 0 && ptr + adjusted_size(l) <= u64::MAX,
    }
}

/// The bytes that a block handed out for `l` spans: the block size of its
/// class, or the adjusted size when the fallback allocator serves `l`.
pub open spec fn block_extent(l: Layout) -> int {
    match size_class(l) {
        Some(i) => block_size(i),
        None => adjusted_size(l),
    }
}

/// No free block of any class, and no block of the fallback free list,
/// overlaps `[start, start + size)`.
pub open spec fn free_disjoint(blocks: Seq<Seq<u64>>, fallback: Seq<ListNode>, start: int, size: int) -> bool {
    &&& forall|i: int, j: int|
        0 <= i < blocks.len() && 0 <= j < blocks[i].len() ==> ranges_disjoint(
            #[trigger] blocks[i][j] as int,
            block_size(i),
            start,
            size,
        )
    &&& disjoint_from_list(fallback, start, size)
}

/// No two free blocks of the size classes overlap, and none overlaps a block
/// of the fallback free list.
pub open spec fn classes_disjoint(blocks: Seq<Seq<u64>>, fallback: Seq<ListNode>) -> bool {
    &&& forall|i1: int, j1: int, i2: int, j2: int|
        #![trigger blocks[i1][j1], blocks[i2][j2]]
        0 <= i1 < blocks.len() && 0 <= j1 < blocks[i1].len() && 0 <= i2 < blocks.len() && 0 <= j2
            < blocks[i2].len() && (i1 != i2 || j1 != j2) ==> ranges_disjoint(
            blocks[i1][j1] as int,
            block_size(i1),
            blocks[i2][j2] as int,
            block_size(i2),
        )
    &&& forall|i: int, j: int|
        0 <= i < blocks.len() && 0 <= j < blocks[i].len() ==> disjoint_from_list(
            fallback,
            #[trigger] blocks[i][j] as int,
            block_size(i),
        )
}

/// Every free block of the size classes lies inside the heap `region`.
pub open spec fn classes_within(blocks: Seq<Seq<u64>>, region: (u64, u64)) -> bool {
    forall|i: int, j: int|
        0 <= i < blocks.len() && 0 <= j < blocks[i].len() ==> range_within(
            #[trigger] blocks[i][j] as int,
            block_size(i),
            region,
        )
}

proof fn lemma_within_pop(blocks: Seq<Seq<u64>>, c: int, region: (u64, u64))
    requires
        classes_within(blocks, region),
        0 <= c < blocks.len(),
        blocks[c].len() > 0,
    ensures
        classes_within(blocks.update(c, blocks[c].drop_last()), region),
        range_within(blocks[c].last() as int, block_size(c), region),
{
    let nb = blocks.update(c, blocks[c].drop_last());
    assert forall|i: int, j: int| 0 <= i < nb.len() && 0 <= j < nb[i].len() implies range_within(
        #[trigger] nb[i][j] as int,
        block_size(i),
        region,
    ) by {
        if i == c {
            assert(nb[i][j] == blocks[c][j]);
        }
        assert(nb[i][j] == blocks[i][j]);
    }
    assert(blocks[c].last() == blocks[c][blocks[c].len() - 1]);
}

proof fn lemma_within_push(blocks: Seq<Seq<u64>>, c: int, ptr: u64, region: (u64, u64))
    requires
        classes_within(blocks, region),
        0 <= c < blocks.len(),
        range_within(ptr as int, block_size(c), region),
    ensures
        classes_within(blocks.update(c, blocks[c].push(ptr)), region),
{
    let nb = blocks.update(c, blocks[c].push(ptr));
    assert forall|i: int, j: int| 0 <= i < nb.len() && 0 <= j < nb[i].len() implies range_within(
        #[trigger] nb[i][j] as int,
        block_size(i),
        region,
    ) by {
        if i == c {
            if j < blocks[c].len() {
                assert(nb[i][j] == blocks[c][j]);
            } else {
                assert(nb[i][j] == ptr);
            }
        } else {
            assert(nb[i][j] == blocks[i][j]);
        }
    }
}

proof fn lemma_classes_pop(blocks: Seq<Seq<u64>>, fallback: Seq<ListNode>, c: int)
    requires
        classes_disjoint(blocks, fallback),
        0 <= c < blocks.len(),
        blocks[c].len() > 0,
    ensures
        classes_disjoint(blocks.update(c, blocks[c].drop_last()), fallback),
        free_disjoint(blocks.update(c, blocks[c].drop_last()), fallback, blocks[c].last() as int, block_size(c)),
{
    let nb = blocks.update(c, blocks[c].drop_last());
    let last = blocks[c].len() - 1;
    assert forall|i: int, j: int| 0 <= i < nb.len() && 0 <= j < nb[i].len() implies #[trigger] nb[i][j]
        == blocks[i][j] by {
        if i == c {
            assert(nb[i] == blocks[c].drop_last());
        }
    }
    assert forall|i1: int, j1: int, i2: int, j2: int|
        #![trigger nb[i1][j1], nb[i2][j2]]
        0 <= i1 < nb.len() && 0 <= j1 < nb[i1].len() && 0 <= i2 < nb.len() && 0 <= j2 < nb[i2].len() && (i1
            != i2 || j1 != j2) implies ranges_disjoint(
        nb[i1][j1] as int,
        block_size(i1),
        nb[i2][j2] as int,
        block_size(i2),
    ) by {
        assert(nb[i1][j1] == blocks[i1][j1]);
        assert(nb[i2][j2] == blocks[i2][j2]);
    }
    assert forall|i: int, j: int| 0 <= i < nb.len() && 0 <= j < nb[i].len() implies disjoint_from_list(
        fallback,
        #[trigger] nb[i][j] as int,
        block_size(i),
    ) by {
        assert(nb[i][j] == blocks[i][j]);
    }
    assert forall|i: int, j: int| 0 <= i < nb.len() && 0 <= j < nb[i].len() implies ranges_disjoint(
        #[trigger] nb[i][j] as int,
        block_size(i),
        blocks[c].last() as int,
        block_size(c),
    ) by {
        assert(nb[i][j] == blocks[i][j]);
        assert(blocks[c].last() == blocks[c][last]);
        assert(i != c || j != last);
    }
    assert(disjoint_from_list(fallback, blocks[c][last] as int, block_size(c)));
}

proof fn lemma_classes_push(blocks: Seq<Seq<u64>>, fallback: Seq<ListNode>, c: int, ptr: u64)
    requires
        classes_disjoint(blocks, fallback),
        0 <= c < blocks.len(),
        free_disjoint(blocks, fallback, ptr as int, block_size(c)),
    ensures
        classes_disjoint(blocks.update(c, blocks[c].push(ptr)), fallback),
{
    let nb = blocks.update(c, blocks[c].push(ptr));
    let new_j = blocks[c].len() as int;
    assert forall|i: int, j: int| 0 <= i < nb.len() && 0 <= j < nb[i].len() && !(i == c && j == new_j) implies #[trigger] nb[i][j]
        == blocks[i][j] by {
        if i == c {
            assert(nb[i] == blocks[c].push(ptr));
        }
    }
    assert(nb[c][new_j] == ptr);
    assert forall|i1: int, j1: int, i2: int, j2: int|
        #![trigger nb[i1][j1], nb[i2][j2]]
        0 <= i1 < nb.len() && 0 <= j1 < nb[i1].len() && 0 <= i2 < nb.len() && 0 <= j2 < nb[i2].len() && (i1
            != i2 || j1 != j2) implies ranges_disjoint(
        nb[i1][j1] as int,
        block_size(i1),
        nb[i2][j2] as int,
        block_size(i2),
    ) by {
        let first_new = i1 == c && j1 == new_j;
        let second_new = i2 == c && j2 == new_j;
        if !first_new && !second_new {
            assert(nb[i1][j1] == blocks[i1][j1]);
            assert(nb[i2][j2] == blocks[i2][j2]);
        } else if first_new {
            assert(nb[i2][j2] == blocks[i2][j2]);
            assert(ranges_disjoint(blocks[i2][j2] as int, block_size(i2), ptr as int, block_size(c)));
        } else {
            assert(nb[i1][j1] == blocks[i1][j1]);
            assert(ranges_disjoint(blocks[i1][j1] as int, block_size(i1), ptr as int, block_size(c)));
        }
    }
    assert forall|i: int, j: int| 0 <= i < nb.len() && 0 <= j < nb[i].len() implies disjoint_from_list(
        fallback,
        #[trigger] nb[i][j] as int,
        block_size(i),
    ) by {
        if !(i == c && j == new_j) {
            assert(nb[i][j] == blocks[i][j]);
        }
    }
}

proof fn lemma_classes_fallback_push(blocks: Seq<Seq<u64>>, fallback: Seq<ListNode>, node: ListNode)
    requires
        classes_disjoint(blocks, fallback),
        free_disjoint(blocks, Seq::empty(), node.start as int, node.size as int),
    ensures
        classes_disjoint(blocks, seq![node] + fallback),
{
    let nf = seq![node] + fallback;
    assert forall|i: int, j: int| 0 <= i < blocks.len() && 0 <= j < blocks[i].len() implies disjoint_from_list(
        nf,
        #[trigger] blocks[i][j] as int,
        block_size(i),
    ) by {
        assert(disjoint_from_list(fallback, blocks[i][j] as int, block_size(i)));
        assert forall|k: int| 0 <= k < nf.len() implies ranges_disjoint(
            (#[trigger] nf[k]).start as int,
            nf[k].size as int,
            blocks[i][j] as int,
            block_size(i),
        ) by {
            if k > 0 {
                assert(nf[k] == fallback[k - 1]);
            }
        }
    }
}

proof fn lemma_free_disjoint_shrink(blocks: Seq<Seq<u64>>, fallback: Seq<ListNode>, start: int, size: int, smaller: int)
    requires
        free_disjoint(blocks, fallback, start, size),
        0 <= smaller <= size,
    ensures
        free_disjoint(blocks, fallback, start, smaller),
{
    assert forall|k: int| 0 <= k < fallback.len() implies ranges_disjoint(
        (#[trigger] fallback[k]).start as int,
        fallback[k].size as int,
        start,
        smaller,
    ) by {
        assert(ranges_disjoint(fallback[k].start as int, fallback[k].size as int, start, size));
    }
}

/// Giving a block back and then asking again for the same layout returns the
/// same block, and leaves the size classes and the fallback free list as they
/// were before the block was given back.
pub proof fn lemma_fsb_reuse(blocks: Seq<Seq<u64>>, fallback: Seq<ListNode>, ptr: u64, l: Layout)
    requires
        l.wf(),
        blocks.len() == BLOCK_CLASSES,
        dealloc_ok(ptr, l),
        size_class(l) is None ==> ptr as int % adjusted_align(l) == 0,
    ensures
        ({
            let (b, f) = fsb_dealloc_result(blocks, fallback, ptr, l);
            fsb_alloc_result(b, f, l) == (blocks, fallback, Some(ptr))
        }),
{
    lemma_size_class(l);
    match size_class(l) {
        Some(i) => {
            let b = blocks.update(i, blocks[i].push(ptr));
            assert(b[i] == blocks[i].push(ptr));
            assert(b[i].drop_last() =~= blocks[i]);
            assert(b.update(i, b[i].drop_last()) =~= blocks);
        },
        None => {
            lemma_first_fit_reuse(fallback, ptr, l);
        },
    }
}

/// A heap allocator with one free list per size class, backed by a
/// linked-list allocator over the same heap for requests that no class serves
/// and for new blocks when a class has none.
pub struct FSBAllocator {
    list_heads: Vec<Vec<u64>>,
    fallback_allocator: LinkedListAllocator,
}

impl FSBAllocator {
    /// The free blocks of each size class; the last of each is handed out first.
    pub closed spec fn free_blocks(&self) -> Seq<Seq<u64>> {
        self.list_heads@.map_values(|v: Vec<u64>| v@)
    }

    /// The free list of the fallback allocator.
    pub closed spec fn fallback_free_list(&self) -> Seq<ListNode> {
        self.fallback_allocator.free_list()
    }

    /// Whether the allocator has been given its heap.
    pub closed spec fn is_initialized(&self) -> bool {
        self.fallback_allocator.is_initialized()
    }

    /// The heap the allocator was given: its start and its size in bytes.
    pub closed spec fn region(&self) -> (u64, u64) {
        self.fallback_allocator.region()
    }

    /// One free list per class, each block aligned to its size, and a
    /// well-formed fallback.
    pub open spec fn inv(&self) -> bool {
        &&& self.free_blocks().len() == BLOCK_CLASSES
        &&& forall|i: int, j: int|
            0 <= i < BLOCK_CLASSES && 0 <= j < self.free_blocks()[i].len() ==> (#[trigger] self.free_blocks()[i][j]) as int % block_size(i) == 0
        &&& forall|i: int| 0 <= i < self.fallback_free_list().len() ==> node_wf(#[trigger] self.fallback_free_list()[i])
        &&& list_disjoint(self.fallback_free_list())
        &&& classes_disjoint(self.free_blocks(), self.fallback_free_list())
        &&& forall|i: int|
            0 <= i < self.fallback_free_list().len() ==> range_within(
                (#[trigger] self.fallback_free_list()[i]).start as int,
                self.fallback_free_list()[i].size as int,
                self.region(),
            )
        &&& classes_within(self.free_blocks(), self.region())
        &&& !self.is_initialized() ==> self.region() == (0u64, 0u64)
    }

    /// No free block overlaps `[start, start + size)`.
    pub open spec fn free_disjoint_from(&self, start: int, size: int) -> bool {
        free_disjoint(self.free_blocks(), self.fallback_free_list(), start, size)
    }

    proof fn lemma_inv_unfold(&self)
        requires
            self.inv(),
        ensures
            self.list_heads@.len() == BLOCK_CLASSES,
            forall|i: int, j: int|
                0 <= i < BLOCK_CLASSES && 0 <= j < self.list_heads@[i]@.len() ==> (#[trigger] self.list_heads@[i]@[j]) as int % block_size(i) == 0,
            self.fallback_allocator.inv(),
    {
        assert forall|i: int, j: int|
            0 <= i < BLOCK_CLASSES && 0 <= j < self.list_heads@[i]@.len() implies (#[trigger] self.list_heads@[i]@[j]) as int % block_size(i) == 0 by {
            assert(self.free_blocks()[i] == self.list_heads@[i]@);
        }
        assert forall|i: int| 0 <= i < self.fallback_allocator.free_list().len() implies node_wf(
            #[trigger] self.fallback_allocator.free_list()[i],
        ) && range_within(
            self.fallback_allocator.free_list()[i].start as int,
            self.fallback_allocator.free_list()[i].size as int,
            self.fallback_allocator.region(),
        ) by {
            assert(node_wf(self.fallback_free_list()[i]));
        }
    }

    proof fn lemma_inv(&self)
        requires
            self.list_heads@.len() == BLOCK_CLASSES,
            forall|i: int, j: int|
                0 <= i < BLOCK_CLASSES && 0 <= j < self.list_heads@[i]@.len() ==> (#[trigger] self.list_heads@[i]@[j]) as int % block_size(i) == 0,
            self.fallback_allocator.inv(),
            classes_disjoint(self.free_blocks(), self.fallback_free_list()),
            classes_within(self.free_blocks(), self.region()),
        ensures
            self.inv(),
    {
        assert forall|i: int| 0 <= i < self.fallback_free_list().len() implies node_wf(
            #[trigger] self.fallback_free_list()[i],
        ) && range_within(
            self.fallback_free_list()[i].start as int,
            self.fallback_free_list()[i].size as int,
            self.region(),
        ) by {
            assert(node_wf(self.fallback_allocator.free_list()[i]));
        }
        assert forall|i: int, j: int|
            0 <= i < BLOCK_CLASSES && 0 <= j < self.free_blocks()[i].len() implies (#[trigger] self.free_blocks()[i][j]) as int % block_size(i) == 0 by {
            assert(self.free_blocks()[i] == self.list_heads@[i]@);
        }
    }

    /// Creates an allocator with empty size classes, not yet given a heap.
    pub fn new() -> (r: Self)
        ensures
            r.inv(),
            !r.is_initialized(),
            r.free_blocks() == Seq::new(BLOCK_CLASSES as nat, |i: int| Seq::<u64>::empty()),
            r.fallback_free_list() == Seq::<ListNode>::empty(),
    {
        let mut list_heads: Vec<Vec<u64>> = Vec::new();
        let mut i: usize = 0;
        while i < BLOCK_CLASSES
            invariant
                0 <= i <= BLOCK_CLASSES,
                list_heads@.len() == i,
                forall|k: int| 0 <= k < i ==> #[trigger] list_heads@[k]@ == Seq::<u64>::empty(),
            decreases BLOCK_CLASSES - i,
        {
            list_heads.push(Vec::new());
            i = i + 1;
        }
        let r = FSBAllocator { list_heads, fallback_allocator: LinkedListAllocator::new() };
        assert(r.free_blocks() =~= Seq::new(BLOCK_CLASSES as nat, |i: int| Seq::<u64>::empty()));
        proof {
            r.lemma_inv();
        }
        r
    }

    /// Gives the allocator the heap `[heap_start, heap_start + heap_size)`,
    /// which must be unused. An allocator is initialized once only.
    pub fn init(&mut self, heap_start: u64, heap_size: u64)
        requires
            !old(self).is_initialized(),
            old(self).inv(),
            node_wf(ListNode { start: heap_start, size: heap_size }),
        ensures
            final(self).inv(),
            final(self).is_initialized(),
            final(self).region() == (heap_start, heap_size),
            final(self).free_blocks() == old(self).free_blocks(),
            forall|i: int| 0 <= i < BLOCK_CLASSES ==> (#[trigger] final(self).free_blocks()[i]).len() == 0,
            final(self).fallback_free_list() == seq![ListNode { start: heap_start, size: heap_size }],
    {
        proof {
            self.lemma_inv_unfold();
            // before the heap is given, the region is empty, so no block lies in it
            assert forall|i: int| 0 <= i < BLOCK_CLASSES implies (#[trigger] self.free_blocks()[i]).len() == 0 by {
                if self.free_blocks()[i].len() > 0 {
                    lemma_block_size(i);
                    assert(range_within(self.free_blocks()[i][0] as int, block_size(i), self.region()));
                }
            }
        }
        self.fallback_allocator.init(heap_start, heap_size);
        proof {
            assert(classes_disjoint(self.free_blocks(), self.fallback_free_list()));
            assert(classes_within(self.free_blocks(), self.region()));
            self.lemma_inv();
        }
    }

    /// Allocates a block for `layout`: from the free list of the smallest size
    /// class that can hold it, else from the fallback allocator. `None` when
    /// the heap cannot serve the request.
    pub fn allocate(&mut self, layout: Layout) -> (r: Option<u64>)
        requires
            old(self).inv(),
            layout.wf(),
        ensures
            final(self).inv(),
            final(self).is_initialized() == old(self).is_initialized(),
            (final(self).free_blocks(), final(self).fallback_free_list(), r) == fsb_alloc_result(
                old(self).free_blocks(),
                old(self).fallback_free_list(),
                layout,
            ),
            r matches Some(start) ==> start % layout.spec_align() == 0,
            r matches Some(start) ==> final(self).free_disjoint_from(start as int, layout.spec_size() as int),
            r matches Some(start) ==> dealloc_ok(start, layout) && final(self).free_disjoint_from(
                start as int,
                block_extent(layout),
            ),
            r matches Some(start) ==> range_within(start as int, block_extent(layout), old(self).region()),
            final(self).region() == old(self).region(),
    {
        proof {
            self.lemma_inv_unfold();
            lemma_size_class(layout);
            layout.lemma_wf();
        }
        match best_fit_index(&layout) {
            Some(index) => {
                proof {
                    lemma_block_size(index as int);
                    lemma_pow2_divides(layout.spec_align() as int, block_size(index as int));
                }
                match self.list_heads[index].pop() {
                    Some(node) => {
                        proof {
                            assert(old(self).free_blocks()[index as int] == old(self).list_heads@[index as int]@);
                            lemma_multiple_transitive(
                                node as int,
                                block_size(index as int),
                                layout.spec_align() as int,
                            );
                            assert(self.free_blocks() =~= old(self).free_blocks().update(
                                index as int,
                                old(self).free_blocks()[index as int].drop_last(),
                            ));
                            lemma_classes_pop(old(self).free_blocks(), old(self).fallback_free_list(), index as int);
                            lemma_within_pop(old(self).free_blocks(), index as int, old(self).region());
                            self.lemma_inv();
                            lemma_free_disjoint_shrink(
                                self.free_blocks(),
                                self.fallback_free_list(),
                                node as int,
                                block_size(index as int),
                                layout.spec_size() as int,
                            );
                        }
                        Some(node)
                    },
                    None => {
                        proof {
                            assert(old(self).free_blocks()[index as int] == old(self).list_heads@[index as int]@);
                            assert(self.free_blocks() =~= old(self).free_blocks());
                        }
                        let size = class_block_size(index);
                        proof {
                            lemma_block_size_max(index as int);
                        }
                        let block_layout = Layout::from_size_align(size, size).unwrap();
                        let r = self.fallback_alloc(block_layout);
                        proof {
                            if r is Some {
                                lemma_multiple_transitive(
                                    r->Some_0 as int,
                                    block_size(index as int),
                                    layout.spec_align() as int,
                                );
                                lemma_adjusted_size(block_layout);
                                lemma_free_disjoint_shrink(
                                    self.free_blocks(),
                                    self.fallback_free_list(),
                                    r->Some_0 as int,
                                    adjusted_size(block_layout),
                                    layout.spec_size() as int,
                                );
                                lemma_free_disjoint_shrink(
                                    self.free_blocks(),
                                    self.fallback_free_list(),
                                    r->Some_0 as int,
                                    adjusted_size(block_layout),
                                    block_size(index as int),
                                );
                            }
                        }
                        r
                    },
                }
            },
            None => {
                let r = self.fallback_alloc(layout);
                proof {
                    if r is Some {
                        lemma_adjusted_size(layout);
                        lemma_free_disjoint_shrink(
                            self.free_blocks(),
                            self.fallback_free_list(),
                            r->Some_0 as int,
                            adjusted_size(layout),
                            layout.spec_size() as int,
                        );
                    }
                }
                r
            },
        }
    }

    /// Whether a block at `ptr` for `layout` is one that `deallocate` can take
    /// back: aligned as its class or the fallback asks, and inside the heap.
    /// That it is not free already is the caller's to know.
    pub fn can_deallocate(&self, ptr: u64, layout: Layout) -> (r: bool)
        requires
            layout.wf(),
        ensures
            r == (dealloc_ok(ptr, layout) && range_within(ptr as int, block_extent(layout), self.region())),
    {
        proof {
            lemma_size_class(layout);
        }
        match best_fit_index(&layout) {
            Some(index) => {
                let size = class_block_size(index);
                ptr % size == 0 && range_fits(ptr, size, self.fallback_allocator.heap_bounds())
            },
            None => {
                let (size, _) = LinkedListAllocator::size_align(layout);
                ptr % NODE_ALIGN == 0 && ptr <= u64::MAX - size && range_fits(
                    ptr,
                    size,
                    self.fallback_allocator.heap_bounds(),
                )
            },
        }
    }

    /// Gives back the block at `ptr` that was allocated for `layout`: to the
    /// free list of its size class, or to the fallback allocator when no class
    /// serves `layout`.
    pub fn deallocate(&mut self, ptr: u64, layout: Layout)
        requires
            old(self).inv(),
            layout.wf(),
            dealloc_ok(ptr, layout),
            old(self).free_disjoint_from(ptr as int, block_extent(layout)),
            range_within(ptr as int, block_extent(layout), old(self).region()),
        ensures
            final(self).inv(),
            final(self).is_initialized() == old(self).is_initialized(),
            final(self).region() == old(self).region(),
            (final(self).free_blocks(), final(self).fallback_free_list()) == fsb_dealloc_result(
                old(self).free_blocks(),
                old(self).fallback_free_list(),
                ptr,
                layout,
            ),
    {
        proof {
            self.lemma_inv_unfold();
            lemma_size_class(layout);
        }
        match best_fit_index(&layout) {
            Some(index) => {
                self.list_heads[index].push(ptr);
                proof {
                    assert(old(self).free_blocks()[index as int] == old(self).list_heads@[index as int]@);
                    assert forall|i: int, j: int|
                        0 <= i < BLOCK_CLASSES && 0 <= j < self.list_heads@[i]@.len() implies (#[trigger] self.list_heads@[i]@[j]) as int % block_size(i) == 0 by {
                        if i != index {
                            assert(self.list_heads@[i] == old(self).list_heads@[i]);
                        } else if j < old(self).list_heads@[i]@.len() {
                            assert(self.list_heads@[i]@[j] == old(self).list_heads@[i]@[j]);
                        }
                    }
                    assert(self.free_blocks() =~= old(self).free_blocks().update(
                        index as int,
                        old(self).free_blocks()[index as int].push(ptr),
                    ));
                    lemma_classes_push(old(self).free_blocks(), old(self).fallback_free_list(), index as int, ptr);
                    lemma_within_push(old(self).free_blocks(), index as int, ptr, old(self).region());
                    self.lemma_inv();
                }
            },
            None => {
                self.fallback_allocator.deallocate(ptr, layout);
                proof {
                    lemma_classes_fallback_push(
                        old(self).free_blocks(),
                        old(self).fallback_free_list(),
                        ListNode { start: ptr, size: adjusted_size(layout) as u64 },
                    );
                    self.lemma_inv();
                }
            },
        }
    }

    /// Allocates from the fallback allocator.
    fn fallback_alloc(&mut self, layout: Layout) -> (r: Option<u64>)
        requires
            old(self).inv(),
            layout.wf(),
        ensures
            final(self).inv(),
            final(self).is_initialized() == old(self).is_initialized(),
            final(self).free_blocks() == old(self).free_blocks(),
            (final(self).fallback_free_list(), r) == alloc_result(
                old(self).fallback_free_list(),
                adjusted_size(layout),
                adjusted_align(layout),
            ),
            r matches Some(start) ==> start % layout.spec_align() == 0,
            r matches Some(start) ==> final(self).free_disjoint_from(start as int, adjusted_size(layout)),
            r matches Some(start) ==> start % NODE_ALIGN == 0 && start + adjusted_size(layout) <= u64::MAX,
            r matches Some(start) ==> range_within(start as int, adjusted_size(layout), old(self).region()),
            final(self).region() == old(self).region(),
    {
        proof {
            self.lemma_inv_unfold();
        }
        let r = self.fallback_allocator.allocate(layout);
        proof {
            let blocks = self.free_blocks();
            assert forall|i: int, j: int| 0 <= i < blocks.len() && 0 <= j < blocks[i].len() implies disjoint_from_list(
                self.fallback_free_list(),
                #[trigger] blocks[i][j] as int,
                block_size(i),
            ) && (r matches Some(start) ==> ranges_disjoint(
                blocks[i][j] as int,
                block_size(i),
                start as int,
                adjusted_size(layout),
            )) by {
                assert(disjoint_from_list(old(self).fallback_free_list(), blocks[i][j] as int, block_size(i)));
                lemma_block_size(i);
            }
            self.lemma_inv();
        }
        r
    }
}

impl HeapAllocator for FSBAllocator {
    open spec fn heap_region(&self) -> (u64, u64) {
        self.region()
    }

    open spec fn heap_all_free(&self) -> bool {
        &&& self.fallback_free_list() == seq![ListNode { start: self.region().0, size: self.region().1 }]
        &&& forall|i: int| 0 <= i < BLOCK_CLASSES ==> (#[trigger] self.free_blocks()[i]).len() == 0
    }

    open spec fn heap_inv(&self) -> bool {
        &&& self.inv()
        &&& !self.is_initialized() ==> self.fallback_free_list().len() == 0 && forall|i: int|
            0 <= i < BLOCK_CLASSES ==> (#[trigger] self.free_blocks()[i]).len() == 0
    }

    open spec fn heap_initialized(&self) -> bool {
        self.is_initialized()
    }

    fn init_heap_region(&mut self, heap_start: u64, heap_size: u64) {
        FSBAllocator::init(self, heap_start, heap_size)
    }
}

} // verus!
