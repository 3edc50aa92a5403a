//! Discovery of usable RAM at boot, and the page-granular interface that the
//! rest of the memory manager allocates physical memory through.

use vstd::prelude::*;
use crate::freelist::{
    FreeList, FreeListError, FreeRegion, aligned_start, carve, fits, fits_aligned, insert_merged, is_first_aligned_fit,
    is_first_fit, is_free, is_insert_position, overlaps, take_front, total, well_formed,
};

verus! {

/// The smallest unit of allocation.
pub const BASE_PAGE_SIZE: usize = 4096;

/// One entry of a boot loader's memory map.
#[derive(Clone, Copy, Debug, PartialEq, Eq, Structural)]
pub struct MemoryMapEntry {
    pub base_address: usize,
    pub length: usize,
    pub available: bool,
}

/// The physical range that the kernel image occupies.
#[derive(Clone, Copy, Debug, PartialEq, Eq, Structural)]
pub struct KernelBounds {
    pub start_address: usize,
    pub end_address: usize,
}

/// Why no free memory could be discovered.
#[derive(Clone, Copy, Debug, PartialEq, Eq, Structural)]
pub enum DiscoveryError {
    /// The boot loader handed over no memory map.
    NoMemoryMap,
    /// No upper limit of RAM was handed over.
    NoLimit,
    /// The source is there, but describes no RAM above the kernel.
    NoAvailableRam,
    /// Two usable entries of the memory map describe the same memory.
    OverlappingRegions,
}

pub open spec fn entry_end(e: MemoryMapEntry) -> int {
    e.base_address + e.length
}

/// An entry is kept when it is available RAM reaching above the kernel.
pub open spec fn is_usable(e: MemoryMapEntry, k: KernelBounds) -> bool {
    e.available && entry_end(e) > k.end_address
}

/// Where the free memory of a kept entry starts: an entry that covers the
/// kernel image, or part of it, is cut to start at the kernel's end.
pub open spec fn usable_start(e: MemoryMapEntry, k: KernelBounds) -> int {
    if e.base_address < k.end_address {
        k.end_address as int
    } else {
        e.base_address as int
    }
}

/// Address `x` is free memory according to one of the first `n` entries.
pub open spec fn covered_by_map(m: Seq<MemoryMapEntry>, k: KernelBounds, n: int, x: int) -> bool {
    exists|j: int|
        0 <= j < n && is_usable(#[trigger] m[j], k) && usable_start(m[j], k) <= x < entry_end(m[j])
}

pub open spec fn has_usable_entry(m: Seq<MemoryMapEntry>, k: KernelBounds) -> bool {
    exists|j: int| 0 <= j < m.len() && is_usable(#[trigger] m[j], k)
}

/// Two of the first `n` kept entries share an address.
pub open spec fn map_overlaps(m: Seq<MemoryMapEntry>, k: KernelBounds, n: int) -> bool {
    exists|j1: int, j2: int|
        0 <= j1 < j2 < n && is_usable(#[trigger] m[j1], k) && is_usable(#[trigger] m[j2], k)
            && usable_start(m[j1], k) < entry_end(m[j1]) && usable_start(m[j2], k) < entry_end(m[j2])
            && usable_start(m[j1], k) < entry_end(m[j2]) && usable_start(m[j2], k) < entry_end(m[j1])
}

/// Every entry's end is an address.
pub open spec fn map_fits(m: Seq<MemoryMapEntry>) -> bool {
    forall|j: int| 0 <= j < m.len() ==> entry_end(#[trigger] m[j]) <= usize::MAX
}

/// A region overlaps `[a, b)` exactly when some address of it is in `[a, b)`.
proof fn lemma_overlap_witness(s: Seq<FreeRegion>, a: int, b: int)
    requires
        well_formed(s),
        a < b,
    ensures
        (exists|j: int| 0 <= j < s.len() && overlaps(#[trigger] s[j], a, b))
            <==> (exists|x: int| is_free(s, x) && a <= x < b),
{
    if exists|j: int| 0 <= j < s.len() && overlaps(#[trigger] s[j], a, b) {
        let j = choose|j: int| 0 <= j < s.len() && overlaps(#[trigger] s[j], a, b);
        assert(s[j].start < s[j].end);
        let x = if s[j].start < a { a } else { s[j].start as int };
        assert(s[j].contains(x));
        assert(is_free(s, x) && a <= x < b);
    }
    if exists|x: int| is_free(s, x) && a <= x < b {
        let x = choose|x: int| is_free(s, x) && a <= x < b;
        let j = choose|j: int| 0 <= j < s.len() && #[trigger] s[j].contains(x);
        assert(overlaps(s[j], a, b));
    }
}

/// Addresses covered by the first `i + 1` entries are those covered by the
/// first `i`, and those of entry `i` when it is kept.
proof fn lemma_cover_step(m: Seq<MemoryMapEntry>, k: KernelBounds, i: int)
    requires
        0 <= i < m.len(),
    ensures
        forall|x: int| #[trigger] covered_by_map(m, k, i + 1, x) <==> covered_by_map(m, k, i, x)
            || (is_usable(m[i], k) && usable_start(m[i], k) <= x < entry_end(m[i])),
{
    assert forall|x: int| #[trigger] covered_by_map(m, k, i + 1, x) <==> covered_by_map(m, k, i, x)
        || (is_usable(m[i], k) && usable_start(m[i], k) <= x < entry_end(m[i])) by {
        if covered_by_map(m, k, i + 1, x) {
            let j = choose|j: int|
                0 <= j < i + 1 && is_usable(#[trigger] m[j], k) && usable_start(m[j], k) <= x < entry_end(m[j]);
            if j < i {
                assert(covered_by_map(m, k, i, x));
            }
        }
        if covered_by_map(m, k, i, x) {
            let j = choose|j: int|
                0 <= j < i && is_usable(#[trigger] m[j], k) && usable_start(m[j], k) <= x < entry_end(m[j]);
            assert(0 <= j < i + 1);
        }
        if is_usable(m[i], k) && usable_start(m[i], k) <= x < entry_end(m[i]) {
            assert(covered_by_map(m, k, i + 1, x));
        }
    }
}

/// Two of the first `i + 1` kept entries overlap only if two of the first
/// `i` do, or entry `i` is kept and shares an address with an earlier one.
proof fn lemma_overlap_step(m: Seq<MemoryMapEntry>, k: KernelBounds, i: int)
    requires
        0 <= i < m.len(),
        !map_overlaps(m, k, i),
        map_overlaps(m, k, i + 1),
    ensures
        is_usable(m[i], k),
        usable_start(m[i], k) < entry_end(m[i]),
        exists|x: int| covered_by_map(m, k, i, x) && usable_start(m[i], k) <= x < entry_end(m[i]),
{
    let (j1, j2) = choose|j1: int, j2: int|
        0 <= j1 < j2 < i + 1 && is_usable(#[trigger] m[j1], k) && is_usable(#[trigger] m[j2], k)
            && usable_start(m[j1], k) < entry_end(m[j1]) && usable_start(m[j2], k) < entry_end(m[j2])
            && usable_start(m[j1], k) < entry_end(m[j2]) && usable_start(m[j2], k) < entry_end(m[j1]);
    assert(j2 == i);
    let x = if usable_start(m[j1], k) < usable_start(m[i], k) { usable_start(m[i], k) } else { usable_start(m[j1], k) };
    assert(covered_by_map(m, k, i, x));
}

/// Builds the free list from a boot loader's memory map: one region for
/// each available entry above the kernel, cut at the kernel's end.
#[verifier::rlimit(50)]
pub fn detect_from_multiboot_info(memory_map: Option<&Vec<MemoryMapEntry>>, kernel: KernelBounds) -> (r: Result<FreeList, DiscoveryError>)
    requires
        memory_map matches Some(m) ==> map_fits(m@),
    ensures
        memory_map is None ==> r == Err::<FreeList, DiscoveryError>(DiscoveryError::NoMemoryMap),
        memory_map matches Some(m) ==> match r {
            Ok(l) => has_usable_entry(m@, kernel) && !map_overlaps(m@, kernel, m@.len() as int) && l.wf()
                && forall|x: int| #[trigger] is_free(l@, x) <==> covered_by_map(m@, kernel, m@.len() as int, x),
            Err(e) => (e == DiscoveryError::NoAvailableRam && !has_usable_entry(m@, kernel))
                || (e == DiscoveryError::OverlappingRegions && has_usable_entry(m@, kernel)
                    && map_overlaps(m@, kernel, m@.len() as int)),
        },
{
    let m = match memory_map {
        None => {
            return Err(DiscoveryError::NoMemoryMap);
        },
        Some(m) => m,
    };
    let mut list = FreeList::new();
    let mut found_ram = false;
    let mut i: usize = 0;
    while i < m.len()
        invariant
            memory_map == Some(m),
            map_fits(m@),
            0 <= i <= m.len(),
            list.wf(),
            forall|x: int| #[trigger] is_free(list@, x) <==> covered_by_map(m@, kernel, i as int, x),
            !map_overlaps(m@, kernel, i as int),
            found_ram <==> exists|j: int| 0 <= j < i && is_usable(#[trigger] m@[j], kernel),
        decreases m.len() - i,
    {
        let e = m[i];
        assert(entry_end(m@[i as int]) <= usize::MAX);
        let end = e.base_address + e.length;
        let ghost before = list@;
        proof {
            lemma_cover_step(m@, kernel, i as int);
        }
        if e.available && end > kernel.end_address {
            found_ram = true;
            let start = if e.base_address < kernel.end_address { kernel.end_address } else { e.base_address };
            if start < end {
                proof {
                    lemma_overlap_witness(before, start as int, end as int);
                }
                match list.deallocate(start, end - start) {
                    Ok(()) => {},
                    Err(_) => {
                        proof {
                            let x = choose|x: int| is_free(before, x) && start <= x < end;
                            let j = choose|j: int|
                                0 <= j < i && is_usable(#[trigger] m@[j], kernel) && usable_start(m@[j], kernel) <= x
                                    < entry_end(m@[j]);
                            assert(is_usable(m@[i as int], kernel));
                            assert(map_overlaps(m@, kernel, m@.len() as int)) by {
                                assert(0 <= j < i as int && (i as int) < m@.len());
                            }
                        }
                        return Err(DiscoveryError::OverlappingRegions);
                    },
                }
            }
            assert(is_usable(m@[i as int], kernel));
        }
        proof {
            if map_overlaps(m@, kernel, i + 1) {
                lemma_overlap_step(m@, kernel, i as int);
                let x = choose|x: int| covered_by_map(m@, kernel, i as int, x)
                    && usable_start(m@[i as int], kernel) <= x < entry_end(m@[i as int]);
                assert(is_free(before, x));
            }
        }
        i = i + 1;
    }
    if !found_ram {
        return Err(DiscoveryError::NoAvailableRam);
    }
    Ok(list)
}

/// Makes `[kernel end, limit)` the one free region.
pub fn detect_from_limits(limit: usize, kernel: KernelBounds) -> (r: Result<FreeList, DiscoveryError>)
    ensures
        match r {
            Ok(l) => kernel.end_address < limit && l.wf()
                && l@ == seq![FreeRegion { start: kernel.end_address, end: limit }],
            Err(e) => (e == DiscoveryError::NoLimit && limit == 0)
                || (e == DiscoveryError::NoAvailableRam && limit != 0 && limit <= kernel.end_address),
        },
{
    if limit == 0 {
        return Err(DiscoveryError::NoLimit);
    }
    if limit <= kernel.end_address {
        return Err(DiscoveryError::NoAvailableRam);
    }
    let mut list = FreeList::new();
    let _ = list.deallocate(kernel.end_address, limit - kernel.end_address);
    assert(list@ =~= seq![FreeRegion { start: kernel.end_address, end: limit }]) by {
        assert(is_insert_position(Seq::<FreeRegion>::empty(), 0, kernel.end_address as int));
    }
    Ok(list)
}

/// The addresses of `[a, b)`.
pub open spec fn range_set(a: int, b: int) -> Set<int> {
    Set::new(|x: int| a <= x < b)
}

/// The free addresses of a list of regions.
pub open spec fn free_set(s: Seq<FreeRegion>) -> Set<int> {
    Set::new(|x: int| is_free(s, x))
}

/// The physical memory manager: the free list, with a record of which
/// memory was discovered and which of it is handed out.
pub struct PhysicalMemory {
    free_list: FreeList,
    kernel: KernelBounds,
    ram: Ghost<Set<int>>,
    allocated: Ghost<Set<int>>,
}

impl PhysicalMemory {
    /// The free regions, in address order.
    pub closed spec fn free_regions(&self) -> Seq<FreeRegion> {
        self.free_list@
    }

    pub closed spec fn kernel(&self) -> KernelBounds {
        self.kernel
    }

    /// All RAM discovered above the kernel.
    pub closed spec fn ram(&self) -> Set<int> {
        self.ram@
    }

    /// The addresses handed out and not yet given back.
    pub closed spec fn allocated(&self) -> Set<int> {
        self.allocated@
    }

    /// Free and handed-out memory never share an address, and together
    /// they are exactly the discovered RAM, all of it above the kernel.
    pub open spec fn wf(&self) -> bool {
        &&& well_formed(self.free_regions())
        &&& forall|x: int| #[trigger] self.ram().contains(x) ==> x >= self.kernel().end_address
        &&& self.ram() == free_set(self.free_regions()).union(self.allocated())
        &&& free_set(self.free_regions()).disjoint(self.allocated())
    }

    /// Where the kernel image lies.
    pub fn kernel_bounds(&self) -> (r: KernelBounds)
        ensures
            r == self.kernel(),
    {
        self.kernel
    }
}

/// Discovers the free memory: from the memory map when the boot loader
/// handed one over, otherwise from the upper limit of RAM.
pub fn init(memory_map: Option<&Vec<MemoryMapEntry>>, limit: usize, kernel: KernelBounds) -> (r: Result<PhysicalMemory, DiscoveryError>)
    requires
        memory_map matches Some(m) ==> map_fits(m@),
    ensures
        r matches Ok(pm) ==> pm.wf() && pm.kernel() == kernel && pm.allocated() == Set::<int>::empty()
            && pm.ram() == free_set(pm.free_regions()),
        memory_map matches Some(m) ==> match r {
            Ok(pm) => has_usable_entry(m@, kernel) && !map_overlaps(m@, kernel, m@.len() as int)
                && forall|x: int| #[trigger] is_free(pm.free_regions(), x) <==> covered_by_map(m@, kernel, m@.len() as int, x),
            Err(e) => (e == DiscoveryError::NoAvailableRam && !has_usable_entry(m@, kernel))
                || (e == DiscoveryError::OverlappingRegions && has_usable_entry(m@, kernel)
                    && map_overlaps(m@, kernel, m@.len() as int)),
        },
        memory_map is None ==> match r {
            Ok(pm) => kernel.end_address < limit
                && pm.free_regions() == seq![FreeRegion { start: kernel.end_address, end: limit }],
            Err(e) => (e == DiscoveryError::NoLimit && limit == 0)
                || (e == DiscoveryError::NoAvailableRam && limit != 0 && limit <= kernel.end_address),
        },
{
    let found = match detect_from_multiboot_info(memory_map, kernel) {
        Err(DiscoveryError::NoMemoryMap) => detect_from_limits(limit, kernel),
        other => other,
    };
    match found {
        Ok(list) => {
            let pm = PhysicalMemory {
                free_list: list,
                kernel,
                ram: Ghost(free_set(list@)),
                allocated: Ghost(Set::empty()),
            };
            assert(pm.ram() == free_set(pm.free_regions()).union(pm.allocated()));
            assert forall|x: int| #[trigger] pm.ram().contains(x) implies x >= kernel.end_address by {
                assert(is_free(list@, x));
                if memory_map is None {
                    let j = choose|j: int| 0 <= j < list@.len() && #[trigger] list@[j].contains(x);
                    assert(list@[j] == FreeRegion { start: kernel.end_address, end: limit });
                }
            }
            Ok(pm)
        },
        Err(e) => Err(e),
    }
}

/// Hands out `size` bytes from the front of the first free region that
/// holds them.
pub fn allocate(pm: &mut PhysicalMemory, size: usize) -> (r: Result<usize, FreeListError>)
    requires
        old(pm).wf(),
        size > 0,
        size % BASE_PAGE_SIZE == 0,
    ensures
        final(pm).wf(),
        final(pm).ram() == old(pm).ram(),
        final(pm).kernel() == old(pm).kernel(),
        match r {
            Ok(a) => (exists|i: int|
                is_first_fit(old(pm).free_regions(), i, size as int)
                    && a == old(pm).free_regions()[i].start
                    && final(pm).free_regions() == take_front(old(pm).free_regions(), i, size as int))
                && range_set(a as int, a + size).subset_of(free_set(old(pm).free_regions()))
                && final(pm).allocated() == old(pm).allocated().union(range_set(a as int, a + size))
                && total(final(pm).free_regions()) == total(old(pm).free_regions()) - size,
            Err(e) => e == FreeListError::OutOfMemory
                && (forall|i: int| 0 <= i < old(pm).free_regions().len()
                    ==> !fits(#[trigger] old(pm).free_regions()[i], size as int))
                && final(pm).free_regions() == old(pm).free_regions()
                && final(pm).allocated() == old(pm).allocated(),
        },
{
    let r = pm.free_list.allocate(size);
    if let Ok(a) = r {
        proof {
            let s = old(pm).free_regions();
            let i = choose|i: int| is_first_fit(s, i, size as int) && a == s[i].start
                && pm.free_list@ == take_front(s, i, size as int);
            assert forall|x: int| range_set(a as int, a + size).contains(x) implies free_set(s).contains(x) by {
                assert(s[i].contains(x));
            }
        }
        pm.allocated = Ghost(pm.allocated@.union(range_set(a as int, a + size)));
        assert(pm.ram() =~= free_set(pm.free_regions()).union(pm.allocated()));
        assert(free_set(pm.free_regions()).disjoint(pm.allocated()));
    }
    r
}

/// Hands out `size` bytes starting at a multiple of `alignment`, cut out of
/// the first free region that holds them.
pub fn allocate_aligned(pm: &mut PhysicalMemory, size: usize, alignment: usize) -> (r: Result<usize, FreeListError>)
    requires
        old(pm).wf(),
        size > 0,
        alignment > 0,
        size % alignment == 0,
        alignment % BASE_PAGE_SIZE == 0,
    ensures
        final(pm).wf(),
        final(pm).ram() == old(pm).ram(),
        final(pm).kernel() == old(pm).kernel(),
        match r {
            Ok(a) => (exists|i: int|
                is_first_aligned_fit(old(pm).free_regions(), i, size as int, alignment as int)
                    && a == aligned_start(old(pm).free_regions()[i], alignment as int)
                    && final(pm).free_regions() == carve(old(pm).free_regions(), i, a as int, size as int))
                && a % alignment == 0
                && range_set(a as int, a + size).subset_of(free_set(old(pm).free_regions()))
                && final(pm).allocated() == old(pm).allocated().union(range_set(a as int, a + size))
                && total(final(pm).free_regions()) == total(old(pm).free_regions()) - size,
            Err(e) => e == FreeListError::OutOfMemory
                && (forall|i: int| 0 <= i < old(pm).free_regions().len()
                    ==> !fits_aligned(#[trigger] old(pm).free_regions()[i], size as int, alignment as int))
                && final(pm).free_regions() == old(pm).free_regions()
                && final(pm).allocated() == old(pm).allocated(),
        },
{
    let r = pm.free_list.allocate_aligned(size, alignment);
    if let Ok(a) = r {
        proof {
            let s = old(pm).free_regions();
            let i = choose|i: int| is_first_aligned_fit(s, i, size as int, alignment as int)
                && a == aligned_start(s[i], alignment as int)
                && pm.free_list@ == carve(s, i, a as int, size as int);
            assert forall|x: int| range_set(a as int, a + size).contains(x) implies free_set(s).contains(x) by {
                assert(s[i].contains(x));
            }
        }
        pm.allocated = Ghost(pm.allocated@.union(range_set(a as int, a + size)));
        assert(pm.ram() =~= free_set(pm.free_regions()).union(pm.allocated()));
        assert(free_set(pm.free_regions()).disjoint(pm.allocated()));
    }
    r
}

/// Takes back `[physical_address, physical_address + size)`, which must
/// have been handed out, and merges it with the free regions it touches.
pub fn deallocate(pm: &mut PhysicalMemory, physical_address: usize, size: usize)
    requires
        old(pm).wf(),
        physical_address >= old(pm).kernel().end_address,
        size > 0,
        size % BASE_PAGE_SIZE == 0,
        physical_address + size <= usize::MAX,
        range_set(physical_address as int, physical_address + size).subset_of(old(pm).allocated()),
    ensures
        final(pm).wf(),
        final(pm).ram() == old(pm).ram(),
        final(pm).kernel() == old(pm).kernel(),
        exists|i: int|
            is_insert_position(old(pm).free_regions(), i, physical_address as int)
                && final(pm).free_regions() == insert_merged(old(pm).free_regions(), i, physical_address as int, physical_address + size),
        final(pm).allocated() == old(pm).allocated().difference(range_set(physical_address as int, physical_address + size)),
        total(final(pm).free_regions()) == total(old(pm).free_regions()) + size,
{
    let ghost s = pm.free_list@;
    let ghost range = range_set(physical_address as int, physical_address + size);
    proof {
        if exists|j: int| 0 <= j < s.len() && overlaps(#[trigger] s[j], physical_address as int, physical_address + size) {
            let j = choose|j: int| 0 <= j < s.len() && overlaps(#[trigger] s[j], physical_address as int, physical_address + size);
            let x = if s[j].start < physical_address { physical_address as int } else { s[j].start as int };
            assert(s[j].start < s[j].end);
            assert(s[j].contains(x));
            assert(free_set(s).contains(x) && old(pm).allocated().contains(x));
        }
    }
    let _ = pm.free_list.deallocate(physical_address, size);
    pm.allocated = Ghost(pm.allocated@.difference(range));
    assert(pm.ram() =~= free_set(pm.free_regions()).union(pm.allocated()));
    assert(free_set(pm.free_regions()).disjoint(pm.allocated()));
}

/// The free regions, in address order, for a diagnostic listing.
pub fn print_information(pm: &PhysicalMemory) -> (r: Vec<FreeRegion>)
    ensures
        r@ == pm.free_regions(),
{
    pm.free_list.regions()
}

/// In every state, no address is both free and handed out, and the free
/// and handed-out addresses together are exactly the discovered RAM.
pub proof fn lemma_free_and_allocated_partition_ram(pm: &PhysicalMemory)
    requires
        pm.wf(),
    ensures
        forall|x: int| #[trigger] pm.ram().contains(x) <==> is_free(pm.free_regions(), x) || pm.allocated().contains(x),
        forall|x: int| !(is_free(pm.free_regions(), x) && #[trigger] pm.allocated().contains(x)),
        forall|x: int| #[trigger] pm.ram().contains(x) ==> x >= pm.kernel().end_address,
{
    assert forall|x: int| #[trigger] pm.ram().contains(x) <==> is_free(pm.free_regions(), x) || pm.allocated().contains(x) by {
        assert(free_set(pm.free_regions()).contains(x) == is_free(pm.free_regions(), x));
    }
    assert forall|x: int| !(is_free(pm.free_regions(), x) && #[trigger] pm.allocated().contains(x)) by {
        assert(free_set(pm.free_regions()).contains(x) == is_free(pm.free_regions(), x));
    }
}

} // verus!
