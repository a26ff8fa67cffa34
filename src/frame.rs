use vstd::prelude::*;

verus! {

/// What the boot hand-off says a physical memory region is used for.
#[derive(Clone, Copy, Debug, PartialEq, Eq, Structural)]
pub enum MemoryRegionType {
    /// Free memory that the kernel may hand out.
    Usable,
    /// Memory already in use (kernel image, boot page tables, boot information).
    InUse,
    /// Memory reserved by the firmware or the hardware.
    Reserved,
}

/// One entry of the boot memory map: the physical range `[start_addr, end_addr)`.
#[derive(Clone, Copy, Debug, PartialEq, Eq, Structural)]
pub struct MemoryRegion {
    pub start_addr: u64,
    pub end_addr: u64,
    pub region_type: MemoryRegionType,
}

/// A 4096-byte physical frame, named by its start address.
#[derive(Clone, Copy, Debug, PartialEq, Eq, Structural)]
pub struct PhysFrame {
    pub start_address: u64,
}

impl PhysFrame {
    /// The frame that holds the physical address `addr`.
    pub fn containing_address(addr: u64) -> (r: PhysFrame)
        ensures
            r.start_address == addr - addr % 4096,
            r.start_address % 4096 == 0,
    {
        PhysFrame { start_address: addr - addr % 4096 }
    }
}

/// A region of the memory map is frame aligned and not reversed.
pub open spec fn region_wf(r: MemoryRegion) -> bool {
    &&& r.start_addr % 4096 == 0
    &&& r.end_addr % 4096 == 0
    &&& r.start_addr <= r.end_addr
}

/// The memory map is well formed: every region is, and the regions are
/// ordered by address without overlapping.
pub open spec fn memory_map_wf(map: Seq<MemoryRegion>) -> bool {
    &&& forall|i: int| 0 <= i < map.len() ==> #[trigger] region_wf(map[i])
    &&& forall|i: int, j: int| 0 <= i < j < map.len() ==> #[trigger] map[i].end_addr <= #[trigger] map[j].start_addr
}

/// Whether a boot memory map is well formed: each region frame aligned and not
/// reversed, and the regions in address order without overlap.
pub fn memory_map_is_well_formed(map: &Vec<MemoryRegion>) -> (r: bool)
    ensures
        r == memory_map_wf(map@),
{
    let mut i: usize = 0;
    while i < map.len()
        invariant
            0 <= i <= map@.len(),
            memory_map_wf(map@.take(i as int)),
        decreases map@.len() - i,
    {
        let region = map[i];
        if !(region.start_addr % 4096 == 0 && region.end_addr % 4096 == 0
            && region.start_addr <= region.end_addr) {
            assert(!region_wf(map@[i as int]));
            return false;
        }
        if i > 0 && map[i - 1].end_addr > region.start_addr {
            assert(!(map@[i - 1].end_addr <= map@[i as int].start_addr));
            return false;
        }
        proof {
            let prev = map@.take(i as int);
            let next = map@.take(i + 1);
            assert forall|k: int| 0 <= k < next.len() implies #[trigger] region_wf(next[k]) by {
                if k < i {
                    assert(next[k] == prev[k]);
                }
            }
            assert forall|a: int, b: int| 0 <= a < b < next.len() implies #[trigger] next[a].end_addr
                <= #[trigger] next[b].start_addr by {
                if b < i {
                    assert(next[a] == prev[a] && next[b] == prev[b]);
                } else if a < i - 1 {
                    assert(next[a] == prev[a] && next[i - 1] == prev[i - 1]);
                    assert(prev[a].end_addr <= prev[i - 1].start_addr);
                    assert(region_wf(prev[i - 1]));
                }
            }
        }
        i = i + 1;
    }
    assert(map@.take(i as int) =~= map@);
    true
}

/// Number of frames that a region contributes: all of its frames when it is
/// usable, none otherwise.
pub open spec fn region_frame_count(r: MemoryRegion) -> nat {
    if r.region_type == MemoryRegionType::Usable {
        ((r.end_addr - r.start_addr) / 4096) as nat
    } else {
        0
    }
}

/// The frames that a region contributes, in address order.
pub open spec fn region_frames(r: MemoryRegion) -> Seq<PhysFrame> {
    Seq::new(
        region_frame_count(r),
        |k: int| PhysFrame { start_address: (r.start_addr + k * 4096) as u64 },
    )
}

/// Every usable frame of the memory map, region after region.
pub open spec fn usable_frames(map: Seq<MemoryRegion>) -> Seq<PhysFrame>
    decreases map.len(),
{
    if map.len() == 0 {
        Seq::empty()
    } else {
        usable_frames(map.drop_last()) + region_frames(map.last())
    }
}

/// `f` is a whole frame inside a usable region of `map`.
pub open spec fn in_usable_region(map: Seq<MemoryRegion>, f: PhysFrame) -> bool {
    exists|k: int|
        0 <= k < map.len() && #[trigger] map[k].region_type == MemoryRegionType::Usable
            && map[k].start_addr <= f.start_address && f.start_address + 4096 <= map[k].end_addr
}

proof fn lemma_region_frames(r: MemoryRegion)
    requires
        region_wf(r),
    ensures
        forall|k: int|
            0 <= k < region_frames(r).len() ==> {
                &&& #[trigger] region_frames(r)[k].start_address == r.start_addr + k * 4096
                &&& region_frames(r)[k].start_address % 4096 == 0
                &&& r.start_addr <= region_frames(r)[k].start_address
                &&& region_frames(r)[k].start_address + 4096 <= r.end_addr
            },
{
    assert forall|k: int| 0 <= k < region_frames(r).len() implies {
        &&& #[trigger] region_frames(r)[k].start_address == r.start_addr + k * 4096
        &&& region_frames(r)[k].start_address % 4096 == 0
        &&& r.start_addr <= region_frames(r)[k].start_address
        &&& region_frames(r)[k].start_address + 4096 <= r.end_addr
    } by {
        let n = (r.end_addr - r.start_addr) / 4096;
        assert(k < n);
        assert(k * 4096 + 4096 <= r.end_addr - r.start_addr) by (nonlinear_arith)
            requires
                k < n,
                n == (r.end_addr - r.start_addr) / 4096,
                r.start_addr <= r.end_addr,
        ;
        assert((r.start_addr + k * 4096) % 4096 == 0) by (nonlinear_arith)
            requires
                r.start_addr % 4096 == 0,
        ;
        assert(0 <= k * 4096) by (nonlinear_arith)
            requires
                0 <= k,
        ;
    }
}

/// The usable frames of a well-formed map are page aligned, lie in usable
/// regions, and come in strictly increasing address order.
pub proof fn lemma_usable_frames(map: Seq<MemoryRegion>)
    requires
        memory_map_wf(map),
    ensures
        forall|i: int|
            0 <= i < usable_frames(map).len() ==> {
                &&& #[trigger] usable_frames(map)[i].start_address % 4096 == 0
                &&& in_usable_region(map, usable_frames(map)[i])
                &&& map.len() > 0 && usable_frames(map)[i].start_address + 4096 <= map.last().end_addr
            },
        forall|i: int, j: int|
            0 <= i < j < usable_frames(map).len() ==> #[trigger] usable_frames(map)[i].start_address
                < #[trigger] usable_frames(map)[j].start_address,
    decreases map.len(),
{
    if map.len() > 0 {
        let prefix = map.drop_last();
        let last = map.last();
        assert(memory_map_wf(prefix)) by {
            assert forall|i: int| 0 <= i < prefix.len() implies #[trigger] region_wf(prefix[i]) by {
                assert(region_wf(map[i]));
            }
            assert forall|i: int, j: int| 0 <= i < j < prefix.len() implies #[trigger] prefix[i].end_addr
                <= #[trigger] prefix[j].start_addr by {
                assert(map[i].end_addr <= map[j].start_addr);
            }
        }
        lemma_usable_frames(prefix);
        assert(region_wf(map[map.len() - 1]));
        lemma_region_frames(last);
        let a = usable_frames(prefix);
        let b = region_frames(last);
        let all = usable_frames(map);
        assert(all == a + b);
        assert forall|i: int| 0 <= i < a.len() implies a[i].start_address + 4096 <= last.start_addr by {
            assert(prefix.len() > 0);
            assert(map[prefix.len() - 1].end_addr <= map[map.len() - 1].start_addr);
        }
        assert forall|i: int| 0 <= i < all.len() implies {
            &&& #[trigger] all[i].start_address % 4096 == 0
            &&& in_usable_region(map, all[i])
            &&& map.len() > 0 && all[i].start_address + 4096 <= map.last().end_addr
        } by {
            if i < a.len() {
                assert(all[i] == a[i]);
                let k = choose|k: int|
                    0 <= k < prefix.len() && #[trigger] prefix[k].region_type
                        == MemoryRegionType::Usable && prefix[k].start_addr <= a[i].start_address
                        && a[i].start_address + 4096 <= prefix[k].end_addr;
                assert(map[k] == prefix[k]);
            } else {
                let k = i - a.len();
                assert(all[i] == b[k]);
                assert(last.region_type == MemoryRegionType::Usable);
                assert(map[map.len() - 1] == last);
            }
        }
        assert forall|i: int, j: int| 0 <= i < j < all.len() implies #[trigger] all[i].start_address
            < #[trigger] all[j].start_address by {
            if j < a.len() {
                assert(all[i] == a[i] && all[j] == a[j]);
            } else if i < a.len() {
                assert(all[i] == a[i] && all[j] == b[j - a.len()]);
            } else {
                assert(all[i] == b[i - a.len()] && all[j] == b[j - a.len()]);
            }
        }
    }
}

proof fn lemma_usable_frames_lower_bound(map: Seq<MemoryRegion>, i: int)
    requires
        memory_map_wf(map),
        0 <= i < usable_frames(map).len(),
    ensures
        usable_frames(map)[i].start_address >= 4096 * i,
    decreases i,
{
    lemma_usable_frames(map);
    if i > 0 {
        lemma_usable_frames_lower_bound(map, i - 1);
        let a = usable_frames(map)[i - 1].start_address as int;
        let b = usable_frames(map)[i].start_address as int;
        assert(a < b);
        assert(a % 4096 == 0 && b % 4096 == 0);
        assert(b >= a + 4096) by (nonlinear_arith)
            requires
                a < b,
                a % 4096 == 0,
                b % 4096 == 0,
        ;
    }
}

/// Fewer usable frames than fit in the 64-bit physical address space.
proof fn lemma_usable_frames_len(map: Seq<MemoryRegion>)
    requires
        memory_map_wf(map),
    ensures
        usable_frames(map).len() <= 0x10_0000_0000_0000,
{
    let n = usable_frames(map).len() as int;
    if n > 0 {
        lemma_usable_frames_lower_bound(map, n - 1);
    }
}

/// The frames of the first `j` regions come first among the frames of the map.
proof fn lemma_usable_frames_prefix(map: Seq<MemoryRegion>, j: int)
    requires
        0 <= j <= map.len(),
    ensures
        usable_frames(map.take(j)).len() <= usable_frames(map).len(),
        forall|k: int|
            0 <= k < usable_frames(map.take(j)).len() ==> #[trigger] usable_frames(map.take(j))[k]
                == usable_frames(map)[k],
    decreases map.len(),
{
    if j == map.len() {
        assert(map.take(j) =~= map);
    } else {
        let prefix = map.drop_last();
        assert(map.take(j) =~= prefix.take(j));
        lemma_usable_frames_prefix(prefix, j);
    }
}

/// Hands out the usable frames of the boot memory map, one after the other.
pub trait FrameAllocator {
    /// The invariant of the allocator's state.
    spec fn inv(&self) -> bool;

    /// The frames that the allocator will still hand out, in order.
    spec fn available(&self) -> Seq<PhysFrame>;

    /// No frame is among those still to be handed out twice.
    proof fn lemma_available_distinct(&self)
        requires
            self.inv(),
        ensures
            self.available().no_duplicates(),
    ;

    /// Hands out the next unused frame, or `None` when every frame has been issued.
    fn allocate_frame(&mut self) -> (r: Option<PhysFrame>)
        requires
            old(self).inv(),
        ensures
            final(self).inv(),
            r matches Some(f) ==> f.start_address % 4096 == 0,
            match r {
                Some(f) => old(self).available().len() > 0 && f == old(self).available()[0]
                    && final(self).available() == old(self).available().drop_first(),
                None => old(self).available().len() == 0 && final(self).available()
                    == old(self).available(),
            },
    ;
}

/// A frame allocator over the usable regions of the boot memory map. It keeps
/// no free set, only the number of frames already issued.
pub struct BootInfoFrameAllocator {
    memory_map: Vec<MemoryRegion>,
    next: u64,
}

impl BootInfoFrameAllocator {
    pub closed spec fn memory_map(&self) -> Seq<MemoryRegion> {
        self.memory_map@
    }

    /// Number of calls that asked for a frame so far.
    pub closed spec fn cursor(&self) -> int {
        self.next as int
    }

    /// The frames handed out so far, in order.
    pub open spec fn issued(&self) -> Seq<PhysFrame> {
        let all = usable_frames(self.memory_map());
        if self.cursor() < all.len() {
            all.take(self.cursor())
        } else {
            all
        }
    }

    /// Creates a frame allocator that has issued no frame yet.
    pub fn init(memory_map: Vec<MemoryRegion>) -> (r: Self)
        requires
            memory_map_wf(memory_map@),
        ensures
            r.inv(),
            r.memory_map() == memory_map@,
            r.cursor() == 0,
            r.available() == usable_frames(memory_map@),
    {
        let r = BootInfoFrameAllocator { memory_map, next: 0 };
        assert(r.available() =~= usable_frames(r.memory_map@));
        r
    }

    /// Hands out the usable frame at the cursor, or `None` once the cursor
    /// has passed the last usable frame. Every call moves the cursor on by
    /// one and leaves the memory map alone, so a frame is never issued twice.
    pub fn allocate_frame(&mut self) -> (r: Option<PhysFrame>)
        requires
            old(self).inv(),
        ensures
            final(self).inv(),
            final(self).memory_map() == old(self).memory_map(),
            final(self).cursor() == (if old(self).cursor() < u64::MAX {
                old(self).cursor() + 1
            } else {
                old(self).cursor()
            }),
            old(self).cursor() < usable_frames(old(self).memory_map()).len() ==> r == Some(
                usable_frames(old(self).memory_map())[old(self).cursor()],
            ),
            old(self).cursor() >= usable_frames(old(self).memory_map()).len() ==> r is None,
            r matches Some(f) ==> {
                &&& f.start_address % 4096 == 0
                &&& in_usable_region(old(self).memory_map(), f)
                &&& !old(self).issued().contains(f)
                &&& final(self).issued() == old(self).issued().push(f)
            },
            r is None ==> final(self).issued() == old(self).issued(),
    {
        let frame = self.usable_frame(self.next);
        proof {
            lemma_usable_frames_len(self.memory_map@);
            lemma_usable_frames(self.memory_map@);
            lemma_frame_uniqueness(*old(self));
        }
        if self.next < u64::MAX {
            self.next = self.next + 1;
        }
        proof {
            let all = usable_frames(old(self).memory_map@);
            let c = old(self).cursor();
            if c < all.len() {
                let f = all[c];
                assert(final(self).issued() =~= old(self).issued().push(f));
                assert(old(self).available()[0] == f);
                assert forall|i: int| 0 <= i < old(self).issued().len() implies old(self).issued()[i] != f by {
                    assert(old(self).issued()[i] != old(self).available()[0]);
                }
            }
        }
        frame
    }

    /// The `n`-th usable frame of the memory map, if there is one.
    fn usable_frame(&self, n: u64) -> (r: Option<PhysFrame>)
        requires
            memory_map_wf(self.memory_map@),
        ensures
            n < usable_frames(self.memory_map@).len() ==> r == Some(
                usable_frames(self.memory_map@)[n as int],
            ),
            n >= usable_frames(self.memory_map@).len() ==> r is None,
    {
        let ghost map = self.memory_map@;
        let mut remaining: u64 = n;
        let mut i: usize = 0;
        while i < self.memory_map.len()
            invariant
                map == self.memory_map@,
                memory_map_wf(map),
                0 <= i <= map.len(),
                usable_frames(map.take(i as int)).len() + remaining == n,
            decreases map.len() - i,
        {
            let region = self.memory_map[i];
            proof {
                assert(map.take(i + 1).drop_last() =~= map.take(i as int));
                assert(map.take(i + 1).last() == region);
                assert(region_wf(map[i as int]));
                lemma_region_frames(region);
            }
            if region.region_type == MemoryRegionType::Usable {
                let count: u64 = (region.end_addr - region.start_addr) / 4096;
                if remaining < count {
                    proof {
                        lemma_usable_frames_prefix(map, i + 1);
                        assert(usable_frames(map.take(i + 1)) == usable_frames(map.take(i as int))
                            + region_frames(region));
                        assert(usable_frames(map.take(i + 1))[n as int] == region_frames(
                            region,
                        )[remaining as int]);
                    }
                    return Some(
                        PhysFrame { start_address: region.start_addr + remaining * 4096 },
                    );
                }
                remaining = remaining - count;
            }
            i = i + 1;
        }
        proof {
            assert(map.take(i as int) =~= map);
        }
        None
    }
}

impl FrameAllocator for BootInfoFrameAllocator {
    open spec fn inv(&self) -> bool {
        memory_map_wf(self.memory_map())
    }

    open spec fn available(&self) -> Seq<PhysFrame> {
        let all = usable_frames(self.memory_map());
        if self.cursor() < all.len() {
            all.subrange(self.cursor(), all.len() as int)
        } else {
            Seq::empty()
        }
    }

    proof fn lemma_available_distinct(&self) {
        lemma_frame_uniqueness(*self);
        assert forall|i: int, j: int|
            0 <= i < self.available().len() && 0 <= j < self.available().len() && i != j implies self.available()[i]
            != self.available()[j] by {
            if i < j {
                assert(self.available()[i] != self.available()[j]);
            } else {
                assert(self.available()[j] != self.available()[i]);
            }
        }
    }

    fn allocate_frame(&mut self) -> (r: Option<PhysFrame>) {
        let frame = BootInfoFrameAllocator::allocate_frame(self);
        proof {
            lemma_usable_frames_len(old(self).memory_map());
            if frame.is_some() {
                assert(self.available() =~= old(self).available().drop_first());
            }
        }
        frame
    }
}

/// The frames that a boot-info frame allocator has still to hand out are
/// pairwise distinct, page aligned, and each lies inside a usable region of its
/// memory map; since every call hands out the first of them and drops it, no
/// frame is ever issued twice.
pub proof fn lemma_frame_uniqueness(a: BootInfoFrameAllocator)
    requires
        a.inv(),
    ensures
        forall|i: int, j: int|
            0 <= i < j < a.issued().len() ==> #[trigger] a.issued()[i] != #[trigger] a.issued()[j],
        forall|i: int, j: int|
            0 <= i < a.issued().len() && 0 <= j < a.available().len() ==> #[trigger] a.issued()[i]
                != #[trigger] a.available()[j],
        forall|i: int, j: int|
            0 <= i < j < a.available().len() ==> #[trigger] a.available()[i]
                != #[trigger] a.available()[j],
        forall|i: int|
            0 <= i < a.available().len() ==> #[trigger] a.available()[i].start_address % 4096 == 0
                && in_usable_region(a.memory_map(), a.available()[i]),
{
    lemma_usable_frames(a.memory_map());
    let all = usable_frames(a.memory_map());
    assert forall|i: int, j: int| 0 <= i < j < a.issued().len() implies #[trigger] a.issued()[i]
        != #[trigger] a.issued()[j] by {
        assert(a.issued()[i] == all[i] && a.issued()[j] == all[j]);
        assert(all[i].start_address < all[j].start_address);
    }
    if a.cursor() < all.len() {
        assert forall|i: int, j: int| 0 <= i < a.issued().len() && 0 <= j < a.available().len() implies #[trigger] a.issued()[i]
            != #[trigger] a.available()[j] by {
            assert(a.issued()[i] == all[i]);
            assert(a.available()[j] == all[j + a.cursor()]);
            assert(all[i].start_address < all[j + a.cursor()].start_address);
        }
        assert forall|i: int, j: int| 0 <= i < j < a.available().len() implies #[trigger] a.available()[i]
            != #[trigger] a.available()[j] by {
            assert(a.available()[i] == all[i + a.cursor()]);
            assert(a.available()[j] == all[j + a.cursor()]);
            assert(all[i + a.cursor()].start_address < all[j + a.cursor()].start_address);
        }
        assert forall|i: int| 0 <= i < a.available().len() implies #[trigger] a.available()[i].start_address % 4096 == 0
            && in_usable_region(a.memory_map(), a.available()[i]) by {
            assert(a.available()[i] == all[i + a.cursor()]);
        }
    }
}

/// Once the cursor has reached the number of usable frames, the allocator has
/// nothing left to hand out, so every further call returns `None`.
pub proof fn lemma_frame_exhaustion(a: BootInfoFrameAllocator)
    requires
        a.inv(),
        a.cursor() >= usable_frames(a.memory_map()).len(),
    ensures
        a.available().len() == 0,
{
}

/// A frame allocator that has no frame to give.
pub struct EmptyFrameAllocator;

impl FrameAllocator for EmptyFrameAllocator {
    open spec fn inv(&self) -> bool {
        true
    }

    open spec fn available(&self) -> Seq<PhysFrame> {
        Seq::empty()
    }

    proof fn lemma_available_distinct(&self) {
    }

    fn allocate_frame(&mut self) -> (r: Option<PhysFrame>) {
        None
    }
}

} // verus!
