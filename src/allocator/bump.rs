use vstd::prelude::*;

use crate::addr::{align_up, align_up_spec, lemma_align_up, lemma_mod_facts};
use crate::allocator::{HeapAllocator, Layout};

verus! {

/// The state of a bump allocator: its heap `[heap_start, heap_end)`, the next
/// free address, and how many of its allocations are still live.
#[derive(Clone, Copy, Debug, PartialEq, Eq, Structural)]
pub struct BumpState {
    pub heap_start: u64,
    pub heap_end: u64,
    pub next: u64,
    pub allocations: u64,
}

/// The state and the result after allocating `l`: the next free address
/// rounded up to the alignment, when the block fits before the heap end.
pub open spec fn bump_alloc_result(s: BumpState, l: Layout) -> (BumpState, Option<u64>) {
    let start = align_up_spec(s.next as int, l.spec_align() as int);
    let end = start + l.spec_size();
    if end <= s.heap_end && s.allocations < u64::MAX {
        (BumpState { next: end as u64, allocations: (s.allocations + 1) as u64, ..s }, Some(start as u64))
    } else {
        (s, None)
    }
}

/// The state after one allocation is given back: when it was the last live
/// one, the whole heap is free again.
pub open spec fn bump_dealloc_result(s: BumpState) -> BumpState {
    if s.allocations == 1 {
        BumpState { next: s.heap_start, allocations: 0, ..s }
    } else {
        BumpState { allocations: (s.allocations - 1) as u64, ..s }
    }
}

/// The state after allocating each layout of `ls` in turn.
pub open spec fn bump_alloc_all(s: BumpState, ls: Seq<Layout>) -> BumpState
    decreases ls.len(),
{
    if ls.len() == 0 {
        s
    } else {
        bump_alloc_all(bump_alloc_result(s, ls[0]).0, ls.drop_first())
    }
}

/// The state after `n` allocations are given back.
pub open spec fn bump_dealloc_n(s: BumpState, n: nat) -> BumpState
    decreases n,
{
    if n == 0 {
        s
    } else {
        bump_dealloc_n(bump_dealloc_result(s), (n - 1) as nat)
    }
}

/// A heap allocator that hands out memory by moving a cursor forward and takes
/// the whole heap back once every allocation has been given back.
pub struct BumpAllocator {
    heap_start: u64,
    heap_end: u64,
    next: u64,
    allocations: u64,
    initialized: Ghost<bool>,
}

impl View for BumpAllocator {
    type V = BumpState;

    closed spec fn view(&self) -> BumpState {
        BumpState {
            heap_start: self.heap_start,
            heap_end: self.heap_end,
            next: self.next,
            allocations: self.allocations,
        }
    }
}

impl BumpAllocator {
    /// Whether the allocator has been given its heap.
    pub closed spec fn is_initialized(&self) -> bool {
        self.initialized@
    }

    /// The cursor stays inside the heap.
    pub open spec fn inv(&self) -> bool {
        self@.heap_start <= self@.next <= self@.heap_end
    }

    /// Creates an allocator with an empty heap, not yet initialized.
    pub fn new() -> (r: Self)
        ensures
            r.inv(),
            !r.is_initialized(),
            r@ == (BumpState { heap_start: 0, heap_end: 0, next: 0, allocations: 0 }),
    {
        BumpAllocator { heap_start: 0, heap_end: 0, next: 0, allocations: 0, initialized: Ghost(false) }
    }

    /// Gives the allocator the heap `[heap_start, heap_start + heap_size)`,
    /// which must be unused. An allocator is initialized once only.
    pub fn init(&mut self, heap_start: u64, heap_size: u64)
        requires
            !old(self).is_initialized(),
            heap_start + heap_size <= u64::MAX,
        ensures
            final(self).inv(),
            final(self).is_initialized(),
            final(self)@ == (BumpState {
                heap_start,
                heap_end: (heap_start + heap_size) as u64,
                next: heap_start,
                allocations: 0,
            }),
    {
        self.heap_start = heap_start;
        self.heap_end = heap_start + heap_size;
        self.next = heap_start;
        self.allocations = 0;
        self.initialized = Ghost(true);
    }

    /// Allocates a block for `layout` at the next free address, rounded up to
    /// its alignment; `None` when it does not fit before the end of the heap.
    pub fn allocate(&mut self, layout: Layout) -> (r: Option<u64>)
        requires
            old(self).inv(),
            layout.wf(),
        ensures
            final(self).inv(),
            final(self).is_initialized() == old(self).is_initialized(),
            (final(self)@, r) == bump_alloc_result(old(self)@, layout),
            r matches Some(start) ==> start % layout.spec_align() == 0,
            r matches Some(start) ==> old(self)@.heap_start <= start && start + layout.spec_size()
                <= old(self)@.heap_end,
    {
        proof {
            layout.lemma_wf();
            lemma_align_up(self.next as int, layout.spec_align() as int);
        }
        let align = layout.align();
        let remainder = self.next % align;
        proof {
            lemma_mod_facts(self.next as int, align as int);
        }
        if remainder != 0 && self.next - remainder > u64::MAX - align {
            // the aligned start lies beyond the address space
            return None;
        }
        let alloc_start = align_up(self.next, align);
        let alloc_end = match alloc_start.checked_add(layout.size()) {
            Some(end) => end,
            None => return None,
        };
        if alloc_end > self.heap_end || self.allocations == u64::MAX {
            None
        } else {
            self.next = alloc_end;
            self.allocations = self.allocations + 1;
            Some(alloc_start)
        }
    }

    /// Number of allocations not yet given back.
    pub fn live_allocations(&self) -> (r: u64)
        ensures
            r == self@.allocations,
    {
        self.allocations
    }

    /// Gives back one live allocation; once none is left, the whole heap is
    /// free again.
    pub fn deallocate(&mut self, _ptr: u64, _layout: Layout)
        requires
            old(self).inv(),
            old(self)@.allocations > 0,
        ensures
            final(self).inv(),
            final(self).is_initialized() == old(self).is_initialized(),
            final(self)@ == bump_dealloc_result(old(self)@),
    {
        self.allocations = self.allocations - 1;
        if self.allocations == 0 {
            self.next = self.heap_start;
        }
    }
}

proof fn lemma_dealloc_n(s: BumpState, n: nat)
    requires
        n <= s.allocations,
    ensures
        bump_dealloc_n(s, n).heap_start == s.heap_start,
        bump_dealloc_n(s, n).heap_end == s.heap_end,
        bump_dealloc_n(s, n).allocations == s.allocations - n,
        n > 0 && n == s.allocations ==> bump_dealloc_n(s, n).next == s.heap_start,
        n < s.allocations ==> bump_dealloc_n(s, n).next == s.next,
    decreases n,
{
    if n > 0 {
        lemma_dealloc_n(bump_dealloc_result(s), (n - 1) as nat);
    }
}

proof fn lemma_alloc_all(s: BumpState, ls: Seq<Layout>)
    ensures
        bump_alloc_all(s, ls).heap_start == s.heap_start,
        bump_alloc_all(s, ls).heap_end == s.heap_end,
        bump_alloc_all(s, ls).allocations <= s.allocations + ls.len(),
    decreases ls.len(),
{
    if ls.len() > 0 {
        lemma_alloc_all(bump_alloc_result(s, ls[0]).0, ls.drop_first());
    }
}

/// Bump round trip: starting from a heap with no live allocation and the
/// cursor at the heap start, when every allocation of a sequence succeeds and
/// all of them are then given back, the cursor is back at the heap start, and
/// allocating the first layout again returns the same address as the first
/// allocation did.
pub proof fn lemma_bump_round_trip(s: BumpState, ls: Seq<Layout>)
    requires
        s.allocations == 0,
        s.next == s.heap_start,
        ls.len() > 0,
        bump_alloc_all(s, ls).allocations == ls.len(),
    ensures
        bump_dealloc_n(bump_alloc_all(s, ls), ls.len()).next == s.heap_start,
        bump_dealloc_n(bump_alloc_all(s, ls), ls.len()).allocations == 0,
        bump_alloc_result(bump_dealloc_n(bump_alloc_all(s, ls), ls.len()), ls[0]).1
            == bump_alloc_result(s, ls[0]).1,
{
    let t = bump_alloc_all(s, ls);
    lemma_alloc_all(s, ls);
    lemma_dealloc_n(t, ls.len());
    let u = bump_dealloc_n(t, ls.len());
    assert(u == s);
}

impl HeapAllocator for BumpAllocator {
    open spec fn heap_inv(&self) -> bool {
        self.inv()
    }

    open spec fn heap_initialized(&self) -> bool {
        self.is_initialized()
    }

    open spec fn heap_region(&self) -> (u64, u64) {
        (self@.heap_start, (self@.heap_end - self@.heap_start) as u64)
    }

    open spec fn heap_all_free(&self) -> bool {
        self@.next == self@.heap_start && self@.allocations == 0
    }

    fn init_heap_region(&mut self, heap_start: u64, heap_size: u64) {
        BumpAllocator::init(self, heap_start, heap_size)
    }
}

} // verus!
