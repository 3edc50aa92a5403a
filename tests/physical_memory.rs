use physmem::freelist::{FreeList, FreeListError, FreeRegion};
use physmem::physicalmem::{
    allocate, allocate_aligned, deallocate, detect_from_limits, detect_from_multiboot_info, init, print_information,
    DiscoveryError, KernelBounds, MemoryMapEntry, PhysicalMemory,
};

const KERNEL: KernelBounds = KernelBounds { start_address: 0x8000, end_address: 0x10000 };

fn region(start: usize, end: usize) -> FreeRegion {
    FreeRegion { start, end }
}

fn entry(base_address: usize, length: usize, available: bool) -> MemoryMapEntry {
    MemoryMapEntry { base_address, length, available }
}

fn from_limit(limit: usize) -> PhysicalMemory {
    init(None, limit, KERNEL).unwrap()
}

#[test]
fn allocate_then_deallocate_restores_single_region() {
    let mut pm = from_limit(0x100000);
    assert_eq!(print_information(&pm), vec![region(0x10000, 0x100000)]);
    assert_eq!(allocate(&mut pm, 0x2000), Ok(0x10000));
    assert_eq!(print_information(&pm), vec![region(0x12000, 0x100000)]);
    deallocate(&mut pm, 0x10000, 0x2000);
    assert_eq!(print_information(&pm), vec![region(0x10000, 0x100000)]);
}

#[test]
fn limit_source_used_without_memory_map() {
    let list = detect_from_limits(0x200000, KERNEL).unwrap();
    assert_eq!(list.regions(), vec![region(0x10000, 0x200000)]);
}

#[test]
fn limit_zero_is_absent() {
    assert_eq!(detect_from_limits(0, KERNEL).err(), Some(DiscoveryError::NoLimit));
    assert_eq!(init(None, 0, KERNEL).err(), Some(DiscoveryError::NoLimit));
}

#[test]
fn limit_below_kernel_end_gives_no_ram() {
    assert_eq!(detect_from_limits(0x10000, KERNEL).err(), Some(DiscoveryError::NoAvailableRam));
}

#[test]
fn memory_map_missing_is_reported() {
    assert_eq!(detect_from_multiboot_info(None, KERNEL).err(), Some(DiscoveryError::NoMemoryMap));
}

#[test]
fn memory_map_entries_are_filtered_and_clipped() {
    let map = vec![
        entry(0x0, 0x9f000, true),
        entry(0x9f000, 0x1000, false),
        entry(0x100000, 0x100000, true),
        entry(0x300000, 0x1000, false),
    ];
    let list = detect_from_multiboot_info(Some(&map), KERNEL).unwrap();
    assert_eq!(list.regions(), vec![region(0x10000, 0x9f000), region(0x100000, 0x200000)]);
}

#[test]
fn memory_map_below_kernel_is_dropped() {
    let map = vec![entry(0x0, 0x8000, true), entry(0x200000, 0x1000, true)];
    let list = detect_from_multiboot_info(Some(&map), KERNEL).unwrap();
    assert_eq!(list.regions(), vec![region(0x200000, 0x201000)]);
}

#[test]
fn memory_map_adjacent_entries_merge() {
    let map = vec![entry(0x100000, 0x1000, true), entry(0x101000, 0x1000, true)];
    let list = detect_from_multiboot_info(Some(&map), KERNEL).unwrap();
    assert_eq!(list.regions(), vec![region(0x100000, 0x102000)]);
}

#[test]
fn memory_map_without_ram_is_fatal_even_with_limit() {
    let map = vec![entry(0x0, 0x8000, true), entry(0x100000, 0x1000, false)];
    assert_eq!(init(Some(&map), 0x100000, KERNEL).err(), Some(DiscoveryError::NoAvailableRam));
}

#[test]
fn memory_map_overlapping_entries_are_refused() {
    let map = vec![entry(0x100000, 0x2000, true), entry(0x101000, 0x2000, true)];
    assert_eq!(detect_from_multiboot_info(Some(&map), KERNEL).err(), Some(DiscoveryError::OverlappingRegions));
}

#[test]
fn memory_map_preferred_over_limit() {
    let map = vec![entry(0x100000, 0x4000, true)];
    let pm = init(Some(&map), 0x900000, KERNEL).unwrap();
    assert_eq!(print_information(&pm), vec![region(0x100000, 0x104000)]);
    assert_eq!(pm.kernel_bounds(), KERNEL);
}

#[test]
fn allocate_uses_first_fitting_region() {
    let map = vec![entry(0x100000, 0x1000, true), entry(0x200000, 0x4000, true)];
    let mut pm = init(Some(&map), 0, KERNEL).unwrap();
    assert_eq!(allocate(&mut pm, 0x2000), Ok(0x200000));
    assert_eq!(allocate(&mut pm, 0x1000), Ok(0x100000));
    assert_eq!(print_information(&pm), vec![region(0x202000, 0x204000)]);
}

#[test]
fn allocate_whole_region_removes_it() {
    let mut pm = from_limit(0x12000);
    assert_eq!(allocate(&mut pm, 0x2000), Ok(0x10000));
    assert_eq!(print_information(&pm), vec![]);
    assert_eq!(allocate(&mut pm, 0x1000), Err(FreeListError::OutOfMemory));
}

#[test]
fn allocate_more_than_free_fails() {
    let mut pm = from_limit(0x20000);
    assert_eq!(allocate(&mut pm, 0x11000), Err(FreeListError::OutOfMemory));
    assert_eq!(print_information(&pm), vec![region(0x10000, 0x20000)]);
}

#[test]
fn repeated_allocation_exhausts_without_overlap() {
    let mut pm = from_limit(0x18000);
    let mut got = Vec::new();
    loop {
        match allocate(&mut pm, 0x3000) {
            Ok(a) => got.push(a),
            Err(e) => {
                assert_eq!(e, FreeListError::OutOfMemory);
                break;
            },
        }
    }
    assert_eq!(got, vec![0x10000, 0x13000]);
    assert_eq!(print_information(&pm), vec![region(0x16000, 0x18000)]);
}

#[test]
fn aligned_allocation_splits_region() {
    let mut pm = from_limit(0x100000);
    assert_eq!(allocate(&mut pm, 0x1000), Ok(0x10000));
    assert_eq!(allocate_aligned(&mut pm, 0x8000, 0x8000), Ok(0x18000));
    assert_eq!(print_information(&pm), vec![region(0x11000, 0x18000), region(0x20000, 0x100000)]);
    deallocate(&mut pm, 0x18000, 0x8000);
    assert_eq!(print_information(&pm), vec![region(0x11000, 0x100000)]);
}

#[test]
fn aligned_allocation_at_region_start_leaves_one_rest() {
    let mut pm = from_limit(0x100000);
    assert_eq!(allocate_aligned(&mut pm, 0x4000, 0x4000), Ok(0x10000));
    assert_eq!(print_information(&pm), vec![region(0x14000, 0x100000)]);
}

#[test]
fn aligned_allocation_skips_regions_too_small_after_alignment() {
    let map = vec![entry(0x101000, 0x4000, true), entry(0x200000, 0x4000, true)];
    let mut pm = init(Some(&map), 0, KERNEL).unwrap();
    assert_eq!(allocate_aligned(&mut pm, 0x4000, 0x4000), Ok(0x200000));
    assert_eq!(allocate_aligned(&mut pm, 0x8000, 0x8000), Err(FreeListError::OutOfMemory));
}

#[test]
fn deallocate_without_neighbours_adds_region() {
    let mut pm = from_limit(0x100000);
    assert_eq!(allocate(&mut pm, 0x3000), Ok(0x10000));
    deallocate(&mut pm, 0x11000, 0x1000);
    assert_eq!(print_information(&pm), vec![region(0x11000, 0x12000), region(0x13000, 0x100000)]);
}

#[test]
fn deallocate_merges_with_both_neighbours() {
    let mut pm = from_limit(0x100000);
    assert_eq!(allocate(&mut pm, 0x3000), Ok(0x10000));
    deallocate(&mut pm, 0x10000, 0x1000);
    assert_eq!(print_information(&pm), vec![region(0x10000, 0x11000), region(0x13000, 0x100000)]);
    deallocate(&mut pm, 0x11000, 0x2000);
    assert_eq!(print_information(&pm), vec![region(0x10000, 0x100000)]);
}

#[test]
fn deallocate_merges_with_lower_neighbour_only() {
    let mut list = FreeList::new();
    assert_eq!(list.deallocate(0x10000, 0x1000), Ok(()));
    assert_eq!(list.deallocate(0x13000, 0x1000), Ok(()));
    assert_eq!(list.deallocate(0x11000, 0x1000), Ok(()));
    assert_eq!(list.regions(), vec![region(0x10000, 0x12000), region(0x13000, 0x14000)]);
}

#[test]
fn deallocate_merges_with_upper_neighbour_only() {
    let mut list = FreeList::new();
    assert_eq!(list.deallocate(0x10000, 0x1000), Ok(()));
    assert_eq!(list.deallocate(0x13000, 0x1000), Ok(()));
    assert_eq!(list.deallocate(0x12000, 0x1000), Ok(()));
    assert_eq!(list.regions(), vec![region(0x10000, 0x11000), region(0x12000, 0x14000)]);
}

#[test]
fn free_list_refuses_range_already_free() {
    let mut list = FreeList::new();
    assert_eq!(list.deallocate(0x10000, 0x4000), Ok(()));
    assert_eq!(list.deallocate(0x12000, 0x4000), Err(FreeListError::Overlapping));
    assert_eq!(list.regions(), vec![region(0x10000, 0x14000)]);
}

#[test]
fn free_list_aligned_takes_from_middle() {
    let mut list = FreeList::new();
    assert_eq!(list.deallocate(0x1000, 0xf000), Ok(()));
    assert_eq!(list.allocate_aligned(0x2000, 0x4000), Ok(0x4000));
    assert_eq!(list.regions(), vec![region(0x1000, 0x4000), region(0x6000, 0x10000)]);
}

#[test]
fn memory_map_entry_inside_kernel_image_is_clipped() {
    let map = vec![entry(0xc000, 0x10000, true)];
    let list = detect_from_multiboot_info(Some(&map), KERNEL).unwrap();
    assert_eq!(list.regions(), vec![region(0x10000, 0x1c000)]);
}

#[test]
fn allocated_and_free_ranges_partition_ram() {
    let mut pm = from_limit(0x40000);
    let a = allocate(&mut pm, 0x3000).unwrap();
    let b = allocate_aligned(&mut pm, 0x4000, 0x4000).unwrap();
    let c = allocate(&mut pm, 0x1000).unwrap();
    deallocate(&mut pm, a, 0x3000);
    let d = allocate(&mut pm, 0x2000).unwrap();
    let taken = vec![(b, b + 0x4000), (c, c + 0x1000), (d, d + 0x2000)];
    let free = print_information(&pm);
    let mut page = 0x10000;
    while page < 0x40000 {
        let in_taken = taken.iter().filter(|&&(s, e)| s <= page && page < e).count();
        let in_free = free.iter().filter(|r| r.start <= page && page < r.end).count();
        assert_eq!(in_taken + in_free, 1, "page {:#X}", page);
        page += 0x1000;
    }
    assert_eq!(b % 0x4000, 0);
}
