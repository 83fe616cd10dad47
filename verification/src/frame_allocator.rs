use vstd::prelude::*;
use crate::memory::{MemoryDescriptor, PAGE_SIZE, spec_conventional};
use x86_64::structures::paging::{PhysFrame, Size4KiB};
use x86_64::PhysAddr;

verus! {

/// A 4 KiB physical frame, known by its first address.
#[derive(Clone, Copy, Debug, PartialEq, Eq, Structural)]
pub struct Frame {
    pub start_address: u64,
}

/// A physical address range `[start, end)`.
#[derive(Clone, Copy, Debug, PartialEq, Eq, Structural)]
pub struct AddressRange {
    pub start: u64,
    pub end: u64,
}

/// First address past the 52-bit physical address space of x86_64.
pub const PHYS_ADDR_LIMIT: u64 = 0x10_0000_0000_0000;

/// The start of the 4 KiB frame that holds `addr`.
pub open spec fn align_down(addr: int) -> int {
    addr - addr % (PAGE_SIZE as int)
}

/// The memory-map entries whose frames are handed out: conventional memory
/// that does not start at address 0.
pub open spec fn usable(d: MemoryDescriptor) -> bool {
    d.phys_start != 0 && d.ty == spec_conventional()
}

/// The frames of one memory-map entry, one per page, in address order; none
/// for an entry that is not usable.
pub open spec fn frames_of(d: MemoryDescriptor) -> Seq<u64> {
    if usable(d) {
        Seq::new(
            d.page_count as nat,
            |k: int| align_down(d.phys_start + PAGE_SIZE * k) as u64,
        )
    } else {
        Seq::empty()
    }
}

/// The frames of all usable entries of a memory map, entry after entry.
pub open spec fn usable_frames(map: Seq<MemoryDescriptor>) -> Seq<u64>
    decreases map.len(),
{
    if map.len() == 0 {
        Seq::empty()
    } else {
        usable_frames(map.drop_last()) + frames_of(map.last())
    }
}

/// A usable entry's frames have physical addresses, below 2^52, and its end
/// is below 2^64.
pub open spec fn entry_addressable(d: MemoryDescriptor) -> bool {
    usable(d) ==> {
        &&& d.phys_start + PAGE_SIZE * d.page_count <= u64::MAX
        &&& d.page_count > 0 ==> d.phys_start + PAGE_SIZE * (d.page_count - 1) < PHYS_ADDR_LIMIT
    }
}

/// Every usable entry of the map is addressable.
pub open spec fn map_addressable(map: Seq<MemoryDescriptor>) -> bool {
    forall|i: int| 0 <= i < map.len() ==> entry_addressable(#[trigger] map[i])
}

/// `x86_64`'s `PhysFrame::<Size4KiB>::containing_address(PhysAddr::new(addr))`,
/// read back through `start_address().as_u64()`.  `PhysAddr::new` panics
/// when a bit from 52 up is set, so `addr` stays below 2^52; the frame
/// starts at `addr` rounded down to a multiple of 4096.
#[verifier::external_body]
fn containing_frame_start(addr: u64) -> (start: u64)
    requires
        addr < PHYS_ADDR_LIMIT,
    ensures
        start == align_down(addr as int),
{
    PhysFrame::<Size4KiB>::containing_address(PhysAddr::new(addr)).start_address().as_u64()
}

/// The usable frames of the first `i` entries come first among those of the
/// first `j` entries, for `i <= j`.
pub proof fn lemma_usable_frames_prefix(map: Seq<MemoryDescriptor>, i: int, j: int)
    requires
        0 <= i <= j <= map.len(),
    ensures
        usable_frames(map.take(i)).len() <= usable_frames(map.take(j)).len(),
        usable_frames(map.take(i)) == usable_frames(map.take(j)).take(
            usable_frames(map.take(i)).len() as int,
        ),
    decreases j - i,
{
    if i < j {
        lemma_usable_frames_prefix(map, i, j - 1);
        assert(map.take(j).drop_last() =~= map.take(j - 1));
        let a = usable_frames(map.take(i));
        let b = usable_frames(map.take(j - 1));
        let c = usable_frames(map.take(j));
        assert(c == b + frames_of(map.take(j).last()));
        assert(a =~= c.take(a.len() as int));
    } else {
        let a = usable_frames(map.take(i));
        assert(a =~= a.take(a.len() as int));
    }
}

/// One past the last address of a memory-map entry.
pub open spec fn entry_end(d: MemoryDescriptor) -> int {
    d.phys_start + PAGE_SIZE * d.page_count
}

/// No two usable entries overlap.
pub open spec fn map_disjoint(map: Seq<MemoryDescriptor>) -> bool {
    forall|i: int, j: int|
        0 <= i < map.len() && 0 <= j < map.len() && i != j && usable(#[trigger] map[i]) && usable(
            #[trigger] map[j],
        ) ==> entry_end(map[i]) <= map[j].phys_start || entry_end(map[j]) <= map[i].phys_start
}

/// The frames of an addressable usable entry: its pages rounded down to a
/// frame boundary, each aligned and within the entry.
pub proof fn lemma_frames_of_entry(d: MemoryDescriptor)
    requires
        usable(d),
        entry_addressable(d),
    ensures
        forall|k: int|
            0 <= k < d.page_count ==> {
                &&& #[trigger] frames_of(d)[k] == align_down(d.phys_start + PAGE_SIZE * k)
                &&& frames_of(d)[k] == align_down(d.phys_start as int) + PAGE_SIZE * k
                &&& frames_of(d)[k] % PAGE_SIZE == 0
                &&& align_down(d.phys_start as int) <= frames_of(d)[k]
                &&& frames_of(d)[k] + PAGE_SIZE <= entry_end(d)
            },
        d.phys_start - PAGE_SIZE < align_down(d.phys_start as int) <= d.phys_start,
{
    vstd::arithmetic::div_mod::lemma_mod_pos_bound(d.phys_start as int, 4096);
    assert forall|k: int| 0 <= k < d.page_count implies {
        &&& #[trigger] frames_of(d)[k] == align_down(d.phys_start + PAGE_SIZE * k)
        &&& frames_of(d)[k] == align_down(d.phys_start as int) + PAGE_SIZE * k
        &&& frames_of(d)[k] % PAGE_SIZE == 0
        &&& align_down(d.phys_start as int) <= frames_of(d)[k]
        &&& frames_of(d)[k] + PAGE_SIZE <= entry_end(d)
    } by {
        let s = d.phys_start as int;
        let x = s + 4096 * k;
        assert(x < PHYS_ADDR_LIMIT && x < entry_end(d)) by (nonlinear_arith)
            requires
                0 <= k < d.page_count,
                x == s + 4096 * k,
                d.phys_start + 4096 * (d.page_count - 1) < PHYS_ADDR_LIMIT,
                entry_end(d) == s + 4096 * d.page_count,
        ;
        vstd::arithmetic::div_mod::lemma_fundamental_div_mod(x, 4096);
        vstd::arithmetic::div_mod::lemma_fundamental_div_mod(s, 4096);
        vstd::arithmetic::div_mod::lemma_mod_pos_bound(x, 4096);
        vstd::arithmetic::div_mod::lemma_mod_pos_bound(s, 4096);
        vstd::arithmetic::div_mod::lemma_mod_multiples_basic(x / 4096, 4096);
        vstd::arithmetic::mul::lemma_mul_is_commutative(x / 4096, 4096);
        vstd::arithmetic::mul::lemma_mul_is_commutative(s / 4096, 4096);
        vstd::arithmetic::div_mod::lemma_div_is_ordered(s, x, 4096);
        vstd::arithmetic::mul::lemma_mul_inequality(s / 4096, x / 4096, 4096);
        vstd::arithmetic::div_mod::lemma_mod_multiples_vanish(k, s, 4096);
        assert(frames_of(d)[k] == align_down(x) as u64);
    }
}

/// Every frame handed out starts on a 4 KiB boundary and lies, whole,
/// within a usable entry of the map, from the entry's start rounded down to
/// a page up to its end.
pub proof fn lemma_usable_frames_in_entries(map: Seq<MemoryDescriptor>)
    requires
        map_addressable(map),
    ensures
        forall|i: int|
            0 <= i < usable_frames(map).len() ==> #[trigger] usable_frames(map)[i] % PAGE_SIZE
                == 0,
        forall|i: int|
            0 <= i < usable_frames(map).len() ==> exists|j: int|
                0 <= j < map.len() && #[trigger] usable(map[j]) && align_down(
                    map[j].phys_start as int,
                ) <= #[trigger] usable_frames(map)[i] && usable_frames(map)[i] + PAGE_SIZE
                    <= entry_end(map[j]),
    decreases map.len(),
{
    if map.len() > 0 {
        let prefix = map.drop_last();
        let n = map.len() - 1;
        let d = map.last();
        assert forall|i: int| 0 <= i < prefix.len() implies prefix[i] == map[i] by {}
        assert(map_addressable(prefix)) by {
            assert forall|i: int| 0 <= i < prefix.len() implies entry_addressable(
                #[trigger] prefix[i],
            ) by {
                assert(prefix[i] == map[i]);
            }
        }
        lemma_usable_frames_in_entries(prefix);
        let a = usable_frames(prefix);
        let b = frames_of(d);
        let u = usable_frames(map);
        assert(u == a + b);
        assert(map[n] == d);
        if usable(d) {
            assert(entry_addressable(map[n]));
            lemma_frames_of_entry(d);
        }
        assert forall|i: int| 0 <= i < u.len() implies #[trigger] u[i] % PAGE_SIZE == 0 && exists|
            j: int,
        |
            0 <= j < map.len() && #[trigger] usable(map[j]) && align_down(map[j].phys_start as int)
                <= u[i] && u[i] + PAGE_SIZE <= entry_end(map[j]) by {
            if i < a.len() {
                assert(u[i] == a[i]);
                let j = choose|j: int|
                    0 <= j < prefix.len() && #[trigger] usable(prefix[j]) && align_down(
                        prefix[j].phys_start as int,
                    ) <= #[trigger] a[i] && a[i] + PAGE_SIZE <= entry_end(prefix[j]);
                assert(prefix[j] == map[j]);
            } else {
                assert(u[i] == b[i - a.len()]);
                assert(usable(map[n]));
            }
        }
    }
}

/// Frames come only from conventional memory (type 7) that does not start
/// at address 0: such an entry gives one frame per page, any other entry
/// gives none.
pub proof fn lemma_frames_only_from_conventional(d: MemoryDescriptor)
    ensures
        d.ty == 7 && d.phys_start != 0 ==> frames_of(d).len() == d.page_count,
        !(d.ty == 7 && d.phys_start != 0) ==> frames_of(d).len() == 0,
{
}

/// Every frame handed out lies, whole, in an entry of the map that is
/// conventional memory (type 7) and does not start at address 0.
pub proof fn lemma_frames_in_conventional_entries(map: Seq<MemoryDescriptor>)
    requires
        map_addressable(map),
    ensures
        forall|i: int|
            0 <= i < usable_frames(map).len() ==> exists|j: int|
                0 <= j < map.len() && #[trigger] map[j].ty == 7 && map[j].phys_start != 0
                    && map[j].phys_start - PAGE_SIZE < #[trigger] usable_frames(map)[i]
                    && usable_frames(map)[i] + PAGE_SIZE <= entry_end(map[j]),
{
    lemma_usable_frames_in_entries(map);
    assert forall|i: int| 0 <= i < usable_frames(map).len() implies exists|j: int|
        0 <= j < map.len() && #[trigger] map[j].ty == 7 && map[j].phys_start != 0
            && map[j].phys_start - PAGE_SIZE < #[trigger] usable_frames(map)[i]
            && usable_frames(map)[i] + PAGE_SIZE <= entry_end(map[j]) by {
        let j = choose|j: int|
            0 <= j < map.len() && #[trigger] usable(map[j]) && align_down(map[j].phys_start as int)
                <= #[trigger] usable_frames(map)[i] && usable_frames(map)[i] + PAGE_SIZE
                <= entry_end(map[j]);
        vstd::arithmetic::div_mod::lemma_mod_pos_bound(map[j].phys_start as int, 4096);
        assert(map[j].ty == 7);
    }
}

/// On a map whose usable entries do not overlap, no frame comes up twice.
pub proof fn lemma_usable_frames_distinct(map: Seq<MemoryDescriptor>)
    requires
        map_addressable(map),
        map_disjoint(map),
    ensures
        usable_frames(map).no_duplicates(),
    decreases map.len(),
{
    if map.len() > 0 {
        let prefix = map.drop_last();
        let n = map.len() - 1;
        let d = map.last();
        assert forall|i: int| 0 <= i < prefix.len() implies prefix[i] == map[i] by {}
        assert(map_addressable(prefix)) by {
            assert forall|i: int| 0 <= i < prefix.len() implies entry_addressable(
                #[trigger] prefix[i],
            ) by {
                assert(prefix[i] == map[i]);
            }
        }
        assert(map_disjoint(prefix)) by {
            assert forall|i: int, j: int|
                0 <= i < prefix.len() && 0 <= j < prefix.len() && i != j && usable(
                    #[trigger] prefix[i],
                ) && usable(#[trigger] prefix[j]) implies entry_end(prefix[i])
                <= prefix[j].phys_start || entry_end(prefix[j]) <= prefix[i].phys_start by {
                assert(prefix[i] == map[i] && prefix[j] == map[j]);
            }
        }
        lemma_usable_frames_distinct(prefix);
        lemma_usable_frames_in_entries(prefix);
        let a = usable_frames(prefix);
        let b = frames_of(d);
        let u = usable_frames(map);
        assert(u == a + b);
        assert(map[n] == d);
        if usable(d) {
            assert(entry_addressable(map[n]));
            lemma_frames_of_entry(d);
        }
        assert forall|p: int, q: int| 0 <= p < u.len() && 0 <= q < u.len() && p != q implies u[p]
            != u[q] by {
            if p < a.len() && q < a.len() {
                assert(u[p] == a[p] && u[q] == a[q]);
            } else if p >= a.len() && q >= a.len() {
                assert(u[p] == b[p - a.len()] && u[q] == b[q - a.len()]);
            } else {
                let pa = if p < a.len() { p } else { q };
                let qb = if p < a.len() { q - a.len() } else { p - a.len() };
                assert(u[pa] == a[pa]);
                assert(u[if p < a.len() { q } else { p }] == b[qb]);
                let j = choose|j: int|
                    0 <= j < prefix.len() && #[trigger] usable(prefix[j]) && align_down(
                        prefix[j].phys_start as int,
                    ) <= #[trigger] a[pa] && a[pa] + PAGE_SIZE <= entry_end(prefix[j]);
                let dj = map[j];
                assert(prefix[j] == dj);
                assert(usable(dj) && usable(map[n]));
                assert(entry_addressable(dj));
                lemma_frames_of_entry(dj);
                assert(entry_end(dj) <= map[n].phys_start || entry_end(map[n]) <= dj.phys_start);
            }
        }
    }
}

/// Whether every usable entry of `map` is addressable (`map_addressable`),
/// as building a frame allocator over it asks.
pub fn map_is_addressable(map: &Vec<MemoryDescriptor>) -> (ok: bool)
    ensures
        ok == map_addressable(map@),
{
    let conventional = crate::memory::conventional_memory_type();
    let mut i: usize = 0;
    while i < map.len()
        invariant
            i <= map@.len(),
            conventional == spec_conventional(),
            forall|j: int| 0 <= j < i ==> entry_addressable(#[trigger] map@[j]),
        decreases map@.len() - i,
    {
        let d = map[i];
        if d.phys_start != 0 && d.ty == conventional {
            let start: u128 = d.phys_start as u128;
            let pages: u128 = d.page_count as u128;
            proof {
                assert(4096 * pages <= 4096 * 0xffff_ffff_ffff_ffffu128) by (nonlinear_arith)
                    requires
                        pages <= 0xffff_ffff_ffff_ffffu128,
                ;
            }
            if start + 4096 * pages > u64::MAX as u128 {
                return false;
            }
            if pages > 0 && start + 4096 * (pages - 1) >= PHYS_ADDR_LIMIT as u128 {
                return false;
            }
        }
        i = i + 1;
    }
    true
}

/// The frames of the usable memory of a memory map, handed out one at a
/// time in `usable_frames` order.
pub struct UsableFrames {
    regions: Vec<MemoryDescriptor>,
    region: usize,
    page: u64,
}

impl UsableFrames {
    /// The memory map the frames come from.
    pub closed spec fn map(&self) -> Seq<MemoryDescriptor> {
        self.regions@
    }

    /// How many frames have been handed out.
    pub closed spec fn consumed(&self) -> nat {
        usable_frames(self.regions@.take(self.region as int)).len() + (self.page as nat)
    }

    /// The position within the memory map is consistent.
    pub closed spec fn wf(&self) -> bool {
        &&& map_addressable(self.regions@)
        &&& self.region <= self.regions@.len()
        &&& self.region == self.regions@.len() ==> self.page == 0
        &&& self.region < self.regions@.len() ==> self.page <= frames_of(
            self.regions@[self.region as int],
        ).len()
    }

    /// Every frame handed out so far and still to come lies in `usable_frames(map)`.
    pub proof fn lemma_consumed_bound(&self)
        requires
            self.wf(),
        ensures
            self.consumed() <= usable_frames(self.map()).len(),
    {
        let r = self.region as int;
        let m = self.regions@;
        if r < m.len() {
            lemma_usable_frames_prefix(m, r + 1, m.len() as int);
            assert(m.take(r + 1).drop_last() =~= m.take(r));
            assert(m.take(r + 1).last() == m[r]);
        }
        assert(m.take(m.len() as int) =~= m);
    }

    /// Hands out the next frame: the frame at position `consumed()` of
    /// `usable_frames(map())`, or `None` once all of them are out.
    pub fn next(&mut self) -> (frame: Option<Frame>)
        requires
            old(self).wf(),
        ensures
            final(self).wf(),
            final(self).map() == old(self).map(),
            old(self).consumed() < usable_frames(old(self).map()).len() ==> frame == Some(
                Frame { start_address: usable_frames(old(self).map())[old(self).consumed() as int] },
            ) && final(self).consumed() == old(self).consumed() + 1,
            old(self).consumed() >= usable_frames(old(self).map()).len() ==> frame is None
                && final(self).consumed() == old(self).consumed(),
    {
        let ghost n0 = self.consumed();
        let ghost m = self.regions@;
        proof {
            self.lemma_consumed_bound();
        }
        let conventional = crate::memory::conventional_memory_type();
        while self.region < self.regions.len()
            invariant
                self.wf(),
                self.regions@ == m,
                m == old(self).regions@,
                n0 == old(self).consumed(),
                self.consumed() == n0,
                conventional == spec_conventional(),
                n0 <= usable_frames(m).len(),
            decreases self.regions@.len() - self.region,
        {
            let d = self.regions[self.region];
            let ghost r = self.region as int;
            proof {
                assert(m.take(r + 1).drop_last() =~= m.take(r));
                assert(m.take(r + 1).last() == m[r]);
            }
            if d.phys_start != 0 && d.ty == conventional && self.page < d.page_count {
                proof {
                    assert(usable(m[r]));
                    assert(entry_addressable(m[r]));
                    assert(d.phys_start + PAGE_SIZE * self.page < PHYS_ADDR_LIMIT) by (
                    nonlinear_arith)
                        requires
                            d.phys_start + PAGE_SIZE * (d.page_count - 1) < PHYS_ADDR_LIMIT,
                            self.page < d.page_count,
                    ;
                    lemma_usable_frames_prefix(m, r + 1, m.len() as int);
                    assert(m.take(m.len() as int) =~= m);
                    let k = self.page as int;
                    assert(usable_frames(m.take(r + 1))[n0 as int] == frames_of(m[r])[k]);
                }
                let addr = d.phys_start + PAGE_SIZE * self.page;
                self.page = self.page + 1;
                let start = containing_frame_start(addr);
                return Some(Frame { start_address: start });
            }
            self.region = self.region + 1;
            self.page = 0;
        }
        proof {
            assert(m.take(m.len() as int) =~= m);
        }
        None
    }
}

/// The frames of the usable memory of `regions` (conventional memory not
/// starting at address 0), one 4 KiB frame per page, entry after entry.
pub fn iter_usable_memory(regions: Vec<MemoryDescriptor>) -> (frames: UsableFrames)
    requires
        map_addressable(regions@),
    ensures
        frames.wf(),
        frames.map() == regions@,
        frames.consumed() == 0,
{
    let frames = UsableFrames { regions, region: 0, page: 0 };
    proof {
        assert(frames.regions@.take(0) =~= Seq::<MemoryDescriptor>::empty());
    }
    frames
}

/// Whether the address `a` lies in the range `[r.start, r.end)`.
pub open spec fn range_contains(r: AddressRange, a: int) -> bool {
    r.start <= a < r.end
}

/// Whether the frame starting at `f` is kept back: its first address, or
/// the address just past its end, lies in one of `regions`.
pub open spec fn frame_skipped(f: int, regions: Seq<AddressRange>) -> bool {
    exists|i: int|
        0 <= i < regions.len() && (range_contains(#[trigger] regions[i], f) || range_contains(
            regions[i],
            f + PAGE_SIZE,
        ))
}

/// The first position, from `from` on, of a frame of `frames` that is not
/// kept back by `regions`; `frames.len()` (or `from`, if larger) where there
/// is none.
pub open spec fn first_unskipped(frames: Seq<u64>, from: int, regions: Seq<AddressRange>) -> int
    decreases frames.len() - from,
{
    if from >= frames.len() {
        from
    } else if !frame_skipped(frames[from] as int, regions) {
        from
    } else {
        first_unskipped(frames, from + 1, regions)
    }
}

/// The position `first_unskipped` finds lies at or after `from`, every
/// frame between is kept back, and the frame there (if any) is not.
pub proof fn lemma_first_unskipped(frames: Seq<u64>, from: int, regions: Seq<AddressRange>)
    requires
        0 <= from,
    ensures
        from <= first_unskipped(frames, from, regions),
        first_unskipped(frames, from, regions) < frames.len() ==> !frame_skipped(
            frames[first_unskipped(frames, from, regions)] as int,
            regions,
        ),
        from <= frames.len() ==> first_unskipped(frames, from, regions) <= frames.len(),
        forall|j: int|
            from <= j < first_unskipped(frames, from, regions) ==> frame_skipped(
                #[trigger] frames[j] as int,
                regions,
            ),
    decreases frames.len() - from,
{
    if from < frames.len() && frame_skipped(frames[from] as int, regions) {
        lemma_first_unskipped(frames, from + 1, regions);
    }
}

/// One call of the allocator as a step on positions of `frames`: the frame
/// handed out (if any) and the position the next call starts from.
pub open spec fn allocation_step(frames: Seq<u64>, regions: Seq<AddressRange>, pos: int) -> (
    Option<u64>,
    int,
) {
    let k = first_unskipped(frames, pos, regions);
    if k < frames.len() {
        (Some(frames[k]), k + 1)
    } else {
        (None, k)
    }
}

/// The positions of `frames` that `n` successive calls, starting from
/// position `pos`, look at last: where each found its frame, or the end.
pub open spec fn allocation_positions(
    frames: Seq<u64>,
    regions: Seq<AddressRange>,
    pos: int,
    n: nat,
) -> Seq<int>
    decreases n,
{
    if n == 0 {
        Seq::empty()
    } else {
        seq![first_unskipped(frames, pos, regions)] + allocation_positions(
            frames,
            regions,
            allocation_step(frames, regions, pos).1,
            (n - 1) as nat,
        )
    }
}

/// What `n` successive calls, starting from position `pos`, hand out.
pub open spec fn allocations(frames: Seq<u64>, regions: Seq<AddressRange>, pos: int, n: nat) -> Seq<
    Option<u64>,
>
    decreases n,
{
    if n == 0 {
        Seq::empty()
    } else {
        seq![allocation_step(frames, regions, pos).0] + allocations(
            frames,
            regions,
            allocation_step(frames, regions, pos).1,
            (n - 1) as nat,
        )
    }
}

/// Over any number of successive calls: each frame handed out is the one at
/// its position, and the positions of the frames handed out strictly
/// increase, so the frames handed out are a subsequence of `frames` in
/// order, none of them kept back, and (when `frames` has no duplicates) no
/// frame comes out twice; once a call hands out nothing, no later call does.
pub proof fn lemma_allocation_sequence(
    frames: Seq<u64>,
    regions: Seq<AddressRange>,
    pos: int,
    n: nat,
)
    requires
        0 <= pos <= frames.len(),
    ensures
        allocations(frames, regions, pos, n).len() == n,
        allocation_positions(frames, regions, pos, n).len() == n,
        forall|i: int|
            0 <= i < n ==> pos <= #[trigger] allocation_positions(frames, regions, pos, n)[i]
                <= frames.len(),
        forall|i: int|
            0 <= i < n ==> #[trigger] allocations(frames, regions, pos, n)[i] == (if allocation_positions(
                frames,
                regions,
                pos,
                n,
            )[i] < frames.len() {
                Some(frames[allocation_positions(frames, regions, pos, n)[i]])
            } else {
                None
            }),
        forall|i: int|
            0 <= i < n && allocation_positions(frames, regions, pos, n)[i] < frames.len()
                ==> !frame_skipped(
                frames[#[trigger] allocation_positions(frames, regions, pos, n)[i]] as int,
                regions,
            ),
        forall|i: int, j: int|
            0 <= i < j < n && allocation_positions(frames, regions, pos, n)[i] < frames.len()
                ==> #[trigger] allocation_positions(frames, regions, pos, n)[i]
                < #[trigger] allocation_positions(frames, regions, pos, n)[j],
        forall|i: int, j: int|
            0 <= i < j < n && #[trigger] allocations(frames, regions, pos, n)[i] is None
                ==> #[trigger] allocations(frames, regions, pos, n)[j] is None,
        frames.no_duplicates() ==> forall|i: int, j: int|
            0 <= i < j < n && #[trigger] allocations(frames, regions, pos, n)[i] is Some
                ==> allocations(frames, regions, pos, n)[i] != #[trigger] allocations(
                frames,
                regions,
                pos,
                n,
            )[j],
    decreases n,
{
    if n > 0 {
        lemma_first_unskipped(frames, pos, regions);
        let k = first_unskipped(frames, pos, regions);
        let next = allocation_step(frames, regions, pos).1;
        let m = (n - 1) as nat;
        lemma_allocation_sequence(frames, regions, next, m);
        let ps = allocation_positions(frames, regions, pos, n);
        let rs = allocations(frames, regions, pos, n);
        let ps1 = allocation_positions(frames, regions, next, m);
        let rs1 = allocations(frames, regions, next, m);
        assert(ps == seq![k] + ps1);
        assert(rs == seq![allocation_step(frames, regions, pos).0] + rs1);
        assert forall|i: int| 0 < i < n implies #[trigger] ps[i] == ps1[i - 1] && rs[i] == rs1[i
            - 1] by {}
        assert forall|i: int| 0 <= i < n implies pos <= #[trigger] ps[i] <= frames.len() by {
            if i > 0 {
                assert(ps[i] == ps1[i - 1]);
            }
        }
        assert forall|i: int| 0 <= i < n implies #[trigger] rs[i] == (if ps[i] < frames.len() {
            Some(frames[ps[i]])
        } else {
            None
        }) by {
            if i > 0 {
                assert(ps[i] == ps1[i - 1] && rs[i] == rs1[i - 1]);
            }
        }
        assert forall|i: int| 0 <= i < n && ps[i] < frames.len() implies !frame_skipped(
            frames[#[trigger] ps[i]] as int,
            regions,
        ) by {
            if i > 0 {
                assert(ps[i] == ps1[i - 1]);
            }
        }
        assert forall|i: int, j: int| 0 <= i < j < n && ps[i] < frames.len() implies #[trigger] ps[i]
            < #[trigger] ps[j] by {
            assert(ps[j] == ps1[j - 1]);
            if i > 0 {
                assert(ps[i] == ps1[i - 1]);
            } else {
                assert(ps1[j - 1] >= next);
            }
        }
        assert forall|i: int, j: int| 0 <= i < j < n && #[trigger] rs[i] is None implies #[trigger] rs[j]
            is None by {
            assert(rs[j] == rs1[j - 1] && ps[j] == ps1[j - 1]);
            if i > 0 {
                assert(rs[i] == rs1[i - 1]);
            } else {
                assert(k >= frames.len());
                assert(ps1[j - 1] >= next);
            }
        }
        if frames.no_duplicates() {
            assert forall|i: int, j: int| 0 <= i < j < n && #[trigger] rs[i] is Some implies rs[i]
                != #[trigger] rs[j] by {
                assert(rs[j] == rs1[j - 1] && ps[j] == ps1[j - 1]);
                if i > 0 {
                    assert(rs[i] == rs1[i - 1] && ps[i] == ps1[i - 1]);
                }
                assert(ps[i] < frames.len());
                assert(ps[i] < ps[j]);
            }
        }
    }
}

/// The start address of a frame handed out, if any.
pub open spec fn frame_start_of(frame: Option<Frame>) -> Option<u64> {
    match frame {
        Some(f) => Some(f.start_address),
        None => None,
    }
}

/// Whether the frame starting at `start` is kept back by `regions`
/// (`frame_skipped`).
pub fn frame_in_skipped_region(regions: &Vec<AddressRange>, start: u64) -> (skipped: bool)
    ensures
        skipped == frame_skipped(start as int, regions@),
{
    let first: u128 = start as u128;
    let past_end: u128 = first + PAGE_SIZE as u128;
    let mut i: usize = 0;
    while i < regions.len()
        invariant
            i <= regions@.len(),
            first == start,
            past_end == start + PAGE_SIZE,
            forall|j: int|
                0 <= j < i ==> !(range_contains(#[trigger] regions@[j], start as int)
                    || range_contains(regions@[j], start + PAGE_SIZE)),
        decreases regions@.len() - i,
    {
        let r = regions[i];
        let lo: u128 = r.start as u128;
        let hi: u128 = r.end as u128;
        if (lo <= first && first < hi) || (lo <= past_end && past_end < hi) {
            assert(range_contains(regions@[i as int], start as int) || range_contains(
                regions@[i as int],
                start + PAGE_SIZE,
            ));
            return true;
        }
        i = i + 1;
    }
    false
}

/// Hands out the physical frames of the usable memory of the firmware
/// memory map, in order, each at most once, keeping back the frames that
/// touch the recorded regions (the kernel image and the framebuffer).
pub struct BootInfoFrameAllocator {
    frames: UsableFrames,
    regions_to_skip: Vec<AddressRange>,
}

impl BootInfoFrameAllocator {
    /// The memory map the frames come from.
    pub closed spec fn map(&self) -> Seq<MemoryDescriptor> {
        self.frames.map()
    }

    /// How many frames of `usable_frames(map())` have been handed out or
    /// passed over.
    pub closed spec fn allocated(&self) -> nat {
        self.frames.consumed()
    }

    /// The allocator is consistent.
    pub closed spec fn wf(&self) -> bool {
        self.frames.wf()
    }

    /// The ranges recorded as in use by the kernel image and the framebuffer.
    pub closed spec fn skipped(&self) -> Seq<AddressRange> {
        self.regions_to_skip@
    }

    /// A consistent allocator works on an addressable memory map and has
    /// gone through no more frames than the map has.
    pub proof fn lemma_wf(&self)
        requires
            self.wf(),
        ensures
            map_addressable(self.map()),
            self.allocated() <= usable_frames(self.map()).len(),
    {
        self.frames.lemma_consumed_bound();
    }

    /// On a memory map whose usable entries do not overlap, the frames an
    /// allocator goes through are all different, so, as each call hands out
    /// a frame from a later position than the one before, no frame is
    /// handed out twice.
    pub proof fn lemma_frames_distinct(&self)
        requires
            self.wf(),
            map_disjoint(self.map()),
        ensures
            usable_frames(self.map()).no_duplicates(),
    {
        self.lemma_wf();
        lemma_usable_frames_distinct(self.map());
    }

    /// The next `n` calls hand out `allocations(usable_frames(map()),
    /// skipped(), allocated(), n)`: frames in `usable_frames` order, from
    /// strictly increasing positions, none kept back, and `None` for good
    /// once a call has handed out nothing; on a map whose usable entries do
    /// not overlap, no frame comes out twice.
    pub proof fn lemma_allocation_sequence(&self, n: nat)
        requires
            self.wf(),
        ensures
            ({
                let frames = usable_frames(self.map());
                let rs = allocations(frames, self.skipped(), self.allocated() as int, n);
                let ps = allocation_positions(frames, self.skipped(), self.allocated() as int, n);
                &&& rs.len() == n
                &&& forall|i: int|
                    0 <= i < n ==> #[trigger] rs[i] == (if ps[i] < frames.len() {
                        Some(frames[ps[i]])
                    } else {
                        None
                    })
                &&& forall|i: int, j: int|
                    0 <= i < j < n && ps[i] < frames.len() ==> #[trigger] ps[i] < #[trigger] ps[j]
                &&& forall|i: int, j: int|
                    0 <= i < j < n && #[trigger] rs[i] is None ==> #[trigger] rs[j] is None
                &&& map_disjoint(self.map()) ==> forall|i: int, j: int|
                    0 <= i < j < n && #[trigger] rs[i] is Some ==> rs[i] != #[trigger] rs[j]
            }),
    {
        self.lemma_wf();
        let frames = usable_frames(self.map());
        lemma_allocation_sequence(frames, self.skipped(), self.allocated() as int, n);
        if map_disjoint(self.map()) {
            lemma_usable_frames_distinct(self.map());
        }
    }

    /// An allocator over the usable memory of `regions` that has handed out
    /// nothing yet, recording `regions_to_skip`.
    pub fn new(regions: Vec<MemoryDescriptor>, regions_to_skip: Vec<AddressRange>) -> (a: Self)
        requires
            map_addressable(regions@),
        ensures
            a.wf(),
            a.map() == regions@,
            a.allocated() == 0,
            a.skipped() == regions_to_skip@,
    {
        BootInfoFrameAllocator { frames: iter_usable_memory(regions), regions_to_skip }
    }

    /// Hands out the next usable frame that is not kept back: the first
    /// frame of `usable_frames(map())` from position `allocated()` on whose
    /// start or end lies in none of the recorded regions.  The frames passed
    /// over are never handed out.  `None` once no such frame is left.
    pub fn allocate_frame(&mut self) -> (frame: Option<Frame>)
        requires
            old(self).wf(),
        ensures
            final(self).wf(),
            final(self).map() == old(self).map(),
            final(self).skipped() == old(self).skipped(),
            (frame_start_of(frame), final(self).allocated() as int) == allocation_step(
                usable_frames(old(self).map()),
                old(self).skipped(),
                old(self).allocated() as int,
            ),
            ({
                let frames = usable_frames(old(self).map());
                let k = first_unskipped(frames, old(self).allocated() as int, old(self).skipped());
                if k < frames.len() {
                    &&& frame == Some(Frame { start_address: frames[k] })
                    &&& final(self).allocated() == k + 1
                } else {
                    &&& frame is None
                    &&& final(self).allocated() == k
                }
            }),
    {
        let ghost frames = usable_frames(self.map());
        let ghost skip = self.skipped();
        let ghost k = first_unskipped(frames, self.allocated() as int, skip);
        proof {
            self.lemma_wf();
        }
        loop
            invariant
                self.wf(),
                self.map() == old(self).map(),
                self.skipped() == skip,
                skip == old(self).skipped(),
                frames == usable_frames(old(self).map()),
                k == first_unskipped(frames, old(self).allocated() as int, skip),
                k == first_unskipped(frames, self.allocated() as int, skip),
                self.allocated() <= frames.len(),
            decreases frames.len() - self.allocated(),
        {
            let ghost n = self.allocated() as int;
            match self.frames.next() {
                None => {
                    return None;
                },
                Some(f) => {
                    proof {
                        self.lemma_wf();
                    }
                    if !frame_in_skipped_region(&self.regions_to_skip, f.start_address) {
                        return Some(f);
                    }
                },
            }
        }
    }
}

} // verus!
