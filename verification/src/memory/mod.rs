use vstd::prelude::*;

verus! {

/// The part of a firmware memory-map entry that the kernel reads: the
/// memory type, the first physical address and the number of 4 KiB pages.
#[derive(Clone, Copy, Debug, PartialEq, Eq, Structural)]
pub struct MemoryDescriptor {
    pub ty: u32,
    pub phys_start: u64,
    pub page_count: u64,
}

/// The UEFI memory type of conventional (free, usable) memory.
pub open spec fn spec_conventional() -> u32 {
    7
}

/// The size of a page and of a physical frame.
pub const PAGE_SIZE: u64 = 4096;

/// Fewest pages that a memory-map entry must span to hold the kernel heap.
pub const MIN_HEAP_PAGES: u64 = 128;

/// `uefi`'s `MemoryType::CONVENTIONAL`, the type of free memory; its
/// value is 7.
#[verifier::external_body]
pub(crate) fn conventional_memory_type() -> (t: u32)
    ensures
        t == spec_conventional(),
{
    uefi::table::boot::MemoryType::CONVENTIONAL.0
}

/// Whether a memory-map entry is conventional memory of at least
/// `MIN_HEAP_PAGES` pages.
pub open spec fn heap_candidate(d: MemoryDescriptor) -> bool {
    d.ty == spec_conventional() && d.page_count >= MIN_HEAP_PAGES
}

/// Index of the last entry of `map` that can hold the heap, if any.
pub open spec fn last_heap_candidate(map: Seq<MemoryDescriptor>) -> Option<int>
    decreases map.len(),
{
    if map.len() == 0 {
        None
    } else if heap_candidate(map.last()) {
        Some(map.len() - 1)
    } else {
        last_heap_candidate(map.drop_last())
    }
}

/// The entry that `last_heap_candidate` picks, where there is one, ends
/// below 2^64.
pub open spec fn heap_region_fits(map: Seq<MemoryDescriptor>) -> bool {
    match last_heap_candidate(map) {
        Some(i) => map[i].phys_start + PAGE_SIZE * map[i].page_count <= u64::MAX,
        None => true,
    }
}

/// A found candidate lies in the map and is a candidate; none found means
/// no entry is one.
pub proof fn lemma_last_heap_candidate(map: Seq<MemoryDescriptor>)
    ensures
        match last_heap_candidate(map) {
            Some(i) => 0 <= i < map.len() && heap_candidate(map[i]) && forall|j: int|
                i < j < map.len() ==> !heap_candidate(#[trigger] map[j]),
            None => forall|j: int| 0 <= j < map.len() ==> !heap_candidate(#[trigger] map[j]),
        },
    decreases map.len(),
{
    if map.len() > 0 {
        let prefix = map.drop_last();
        lemma_last_heap_candidate(prefix);
        assert forall|j: int| 0 <= j < prefix.len() implies prefix[j] == map[j] by {}
        assert(map.last() == map[map.len() - 1]);
    }
}

/// Whether `heap_region(map)` can compute the end of the region it picks
/// (`heap_region_fits`).
pub fn heap_region_fits_map(map: &Vec<MemoryDescriptor>) -> (ok: bool)
    ensures
        ok == heap_region_fits(map@),
{
    let conventional = conventional_memory_type();
    let mut i: usize = map.len();
    assert(map@.take(i as int) =~= map@);
    while i > 0
        invariant
            i <= map@.len(),
            conventional == spec_conventional(),
            last_heap_candidate(map@) == last_heap_candidate(map@.take(i as int)),
        decreases i,
    {
        assert(map@.take(i as int).drop_last() =~= map@.take(i - 1));
        let d = map[i - 1];
        if d.ty == conventional && d.page_count >= MIN_HEAP_PAGES {
            let start: u128 = d.phys_start as u128;
            let pages: u128 = d.page_count as u128;
            proof {
                assert(4096 * pages <= 4096 * 0xffff_ffff_ffff_ffffu128) by (nonlinear_arith)
                    requires
                        pages <= 0xffff_ffff_ffff_ffffu128,
                ;
            }
            return start + 4096 * pages <= u64::MAX as u128;
        }
        i = i - 1;
    }
    true
}

/// The physical memory `[start, end)` that the kernel heap is placed in:
/// the last conventional memory-map entry of at least `MIN_HEAP_PAGES`
/// pages, taken whole.  `None` where the map has no such entry.
pub fn heap_region(map: &Vec<MemoryDescriptor>) -> (region: Option<(u64, u64)>)
    requires
        heap_region_fits(map@),
    ensures
        match last_heap_candidate(map@) {
            Some(i) => region == Some(
                (
                    map@[i].phys_start,
                    (map@[i].phys_start + PAGE_SIZE * map@[i].page_count) as u64,
                ),
            ),
            None => region is None,
        },
{
    let conventional = conventional_memory_type();
    let mut i: usize = map.len();
    assert(map@.take(i as int) =~= map@);
    while i > 0
        invariant
            i <= map@.len(),
            conventional == spec_conventional(),
            heap_region_fits(map@),
            last_heap_candidate(map@) == last_heap_candidate(map@.take(i as int)),
        decreases i,
    {
        assert(map@.take(i as int).drop_last() =~= map@.take(i - 1));
        let d = map[i - 1];
        if d.ty == conventional && d.page_count >= MIN_HEAP_PAGES {
            let start = d.phys_start;
            let extent = PAGE_SIZE * d.page_count;
            return Some((start, start + extent));
        }
        i = i - 1;
    }
    None
}

/// The heap goes in the last entry of conventional memory (type 7) that
/// spans at least 128 pages, and only there: a region found comes from such
/// an entry, starts at its first address and spans all its pages, and no
/// later entry qualifies; no region is found only when no entry qualifies.
pub proof fn lemma_heap_region_is_last_conventional(map: Seq<MemoryDescriptor>)
    ensures
        match last_heap_candidate(map) {
            Some(i) => {
                &&& 0 <= i < map.len()
                &&& map[i].ty == 7
                &&& map[i].page_count >= 128
                &&& forall|j: int|
                    i < j < map.len() ==> !(#[trigger] map[j].ty == 7 && map[j].page_count >= 128)
            },
            None => forall|j: int|
                0 <= j < map.len() ==> !(#[trigger] map[j].ty == 7 && map[j].page_count >= 128),
        },
{
    lemma_last_heap_candidate(map);
}

} // verus!
