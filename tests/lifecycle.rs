use kalloc::allocator::Allocator;
use kalloc::bootstrap::{memory_map, pages_to_extent, MemRegion, PAGE_SIZE};
use kalloc::heap::{AllocErr, FreeErr};
use kalloc::state::{HeapState, InitErr};

#[test]
fn uninitialized_state_refuses_requests() {
    let mut st = HeapState::uninitialized();
    assert_eq!(st.allocate(16, 8), Err(AllocErr::Uninitialized));
    assert_eq!(st.deallocate(0, 16, 8), Err(FreeErr::Uninitialized));
    assert_eq!(st.allocate(0, 8), Err(AllocErr::Uninitialized));
}

#[test]
fn uninitialized_allocator_refuses_requests() {
    let a = Allocator::uninitialized();
    assert_eq!(a.allocate(16, 8), Err(AllocErr::Uninitialized));
    assert_eq!(a.deallocate(0, 16, 8), Err(FreeErr::Uninitialized));
    assert_eq!(a.allocate(0, 8), Err(AllocErr::Uninitialized));
}

#[test]
fn shared_free_rebuilds_padded_range() {
    let a = Allocator::uninitialized();
    assert_eq!(a.init_memmap(0x10000, 1, 0), Ok(()));
    assert_eq!(a.allocate(3, 1), Ok(0x10000));
    assert_eq!(a.allocate(16, 16), Ok(0x10010));
    assert_eq!(a.deallocate(0x10010, 16, 8), Err(FreeErr::NotAllocated));
    assert_eq!(a.deallocate(0x10010, 0, 16), Err(FreeErr::NotAllocated));
    assert_eq!(a.deallocate(0x10010, 16, 16), Ok(()));
    assert_eq!(a.deallocate(0x10000, 3, 1), Ok(()));
    assert_eq!(a.allocate(4096, 1), Ok(0x10000));
}

#[test]
fn memory_map_takes_first_region_past_kernel() {
    let records = vec![
        None,
        Some(MemRegion { start: 0x100, size: 0x1000 }),
        Some(MemRegion { start: 0x4000_0000, size: 0x10 }),
    ];
    assert_eq!(memory_map(&records, 0x8000), Some((0x8000, 0x9000)));
    assert_eq!(memory_map(&records, 0), Some((0x100, 0x1100)));
    assert_eq!(memory_map(&vec![None, None], 0), None);
    assert_eq!(memory_map(&vec![], 0), None);
}

#[test]
fn pages_give_extent_after_reserved_start() {
    assert_eq!(PAGE_SIZE, 4096);
    assert_eq!(pages_to_extent(0x10000, 4, 0), Some((0x10000, 0x14000)));
    assert_eq!(pages_to_extent(0x10000, 4, 100), Some((0x11000, 0x14000)));
    assert_eq!(pages_to_extent(0x10000, 4, 4096), Some((0x11000, 0x14000)));
    assert_eq!(pages_to_extent(0x10000, 4, 20000), Some((0x14000, 0x14000)));
    assert_eq!(pages_to_extent(usize::MAX - 10, 1, 0), None);
    assert_eq!(pages_to_extent(0, usize::MAX, 0), None);
}

#[test]
fn initialize_from_descriptors() {
    let a = Allocator::uninitialized();
    assert_eq!(a.allocate(8, 8), Err(AllocErr::Uninitialized));
    let records = vec![None, Some(MemRegion { start: 0, size: 0x2000 })];
    assert_eq!(memory_map(&records, 0x1000), Some((0x1000, 0x3000)));
    a.initialize(&records, 0x1000);
    assert_eq!(a.allocate(0x2000, 8), Ok(0x1000));
    assert_eq!(a.allocate(1, 1), Err(AllocErr::Exhausted));
    assert_eq!(a.deallocate(0x1000, 0x2000, 8), Ok(()));
    assert_eq!(a.allocate(0x100, 0x100), Ok(0x1000));
}

#[test]
fn init_memmap_carves_pages() {
    let mut st = HeapState::uninitialized();
    assert_eq!(st.init_memmap(usize::MAX - 10, 1, 0), Err(InitErr::RegionOverflow));
    assert_eq!(st.allocate(8, 8), Err(AllocErr::Uninitialized));
    assert_eq!(st.init_memmap(0x10000, 2, 10), Ok(()));
    assert_eq!(st.allocate(8, 8), Ok(0x11000));
    assert_eq!(st.allocate(4096, 1), Err(AllocErr::Exhausted));
    assert_eq!(st.allocate(4088, 1), Ok(0x11008));
}

#[test]
fn shared_callers_never_overlap() {
    let a = Allocator::uninitialized();
    assert_eq!(a.init_memmap(0x100000, 64, 0), Ok(()));
    let callers: Vec<&Allocator> = vec![&a, &a, &a, &a];
    let mut held: Vec<Vec<(usize, usize)>> = vec![Vec::new(); 4];
    let mut seed: u64 = 11;
    for round in 0..1200usize {
        let c = round % 4;
        seed = seed.wrapping_mul(6364136223846793005).wrapping_add(1442695040888963407);
        let pick = (seed >> 33) as usize;
        if pick % 3 != 0 || held[c].is_empty() {
            let size = 1 + pick % 500;
            if let Ok(p) = callers[c].allocate(size, 8) {
                held[c].push((p, size));
            }
        } else {
            let n = held[c].len();
            let (p, size) = held[c].swap_remove(pick % n);
            assert_eq!(callers[c].deallocate(p, size, 8), Ok(()));
        }
    }
    let mut all: Vec<(usize, usize)> = held.concat();
    all.sort();
    for pair in all.windows(2) {
        assert!(pair[0].0 + pair[0].1 <= pair[1].0);
    }
    for (p, size) in all {
        assert_eq!(a.deallocate(p, size, 8), Ok(()));
    }
    assert_eq!(a.allocate(64 * 4096, 1), Ok(0x100000));
}
