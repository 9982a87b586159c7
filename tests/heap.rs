use kalloc::block::Block;
use kalloc::heap::{AllocErr, FreeErr, Heap};

fn blocks(v: &[(usize, usize)]) -> Vec<Block> {
    v.iter().map(|&(addr, size)| Block { addr, size }).collect()
}

fn bytes(v: &[Block]) -> usize {
    v.iter().map(|b| b.size).sum()
}

#[test]
fn first_fit_not_best_fit() {
    let mut h = Heap::new(0, 68);
    assert_eq!(h.allocate(16, 1), Ok(0));
    assert_eq!(h.allocate(48, 1), Ok(16));
    assert_eq!(h.free_blocks(), blocks(&[(64, 4)]));
    assert_eq!(h.deallocate(0, 16, 1), Ok(()));
    assert_eq!(h.free_blocks(), blocks(&[(0, 16), (64, 4)]));
    assert_eq!(h.allocate(4, 1), Ok(0));
    assert_eq!(h.free_blocks(), blocks(&[(4, 12), (64, 4)]));
}

#[test]
fn coalescing_adjacent_blocks() {
    let mut h = Heap::new(0, 32);
    assert_eq!(h.allocate(16, 1), Ok(0));
    assert_eq!(h.allocate(16, 1), Ok(16));
    assert_eq!(h.free_blocks(), blocks(&[]));
    assert_eq!(h.deallocate(0, 16, 1), Ok(()));
    assert_eq!(h.deallocate(16, 16, 1), Ok(()));
    assert_eq!(h.free_blocks(), blocks(&[(0, 32)]));
    assert_eq!(h.allocate(32, 1), Ok(0));
}

#[test]
fn coalescing_on_both_sides() {
    let mut h = Heap::new(0, 48);
    assert_eq!(h.allocate(16, 1), Ok(0));
    assert_eq!(h.allocate(16, 1), Ok(16));
    assert_eq!(h.allocate(16, 1), Ok(32));
    assert_eq!(h.deallocate(0, 16, 1), Ok(()));
    assert_eq!(h.deallocate(32, 16, 1), Ok(()));
    assert_eq!(h.free_blocks(), blocks(&[(32, 16), (0, 16)]));
    assert_eq!(h.deallocate(16, 16, 1), Ok(()));
    assert_eq!(h.free_blocks(), blocks(&[(0, 48)]));
}

#[test]
fn round_trip_restores_capacity() {
    let mut h = Heap::new(0x1000, 0x1100);
    let p = h.allocate(100, 64).unwrap();
    assert_eq!(p % 64, 0);
    for i in 0..100 {
        // the range handed out is inside the extent
        assert!(p + i < 0x1100);
    }
    assert_eq!(h.deallocate(p, 100, 64), Ok(()));
    assert_eq!(h.free_blocks(), blocks(&[(0x1000, 0x100)]));
    let q = h.allocate(60, 32).unwrap();
    assert_eq!(q % 32, 0);
    assert_eq!(q, 0x1000);
}

#[test]
fn oversized_request_fails_without_compaction() {
    let mut h = Heap::new(0, 48);
    assert_eq!(h.allocate(16, 1), Ok(0));
    assert_eq!(h.allocate(16, 1), Ok(16));
    assert_eq!(h.allocate(16, 1), Ok(32));
    assert_eq!(h.deallocate(0, 16, 1), Ok(()));
    assert_eq!(h.deallocate(32, 16, 1), Ok(()));
    assert_eq!(bytes(&h.free_blocks()), 32);
    assert_eq!(h.allocate(24, 1), Err(AllocErr::Exhausted));
    assert_eq!(h.free_blocks(), blocks(&[(32, 16), (0, 16)]));
}

#[test]
fn request_larger_than_region_fails() {
    let mut h = Heap::new(0x100, 0x200);
    assert_eq!(h.allocate(0x101, 1), Err(AllocErr::Exhausted));
    assert_eq!(h.allocate(0x100, 1), Ok(0x100));
    assert_eq!(h.allocate(1, 1), Err(AllocErr::Exhausted));
}

#[test]
fn alignment_padding_goes_with_allocation() {
    let mut h = Heap::new(1, 101);
    assert_eq!(h.allocate(8, 16), Ok(16));
    assert_eq!(h.free_blocks(), blocks(&[(24, 77)]));
    assert_eq!(h.live_blocks(), blocks(&[(1, 23)]));
    assert_eq!(h.deallocate(16, 8, 1), Err(FreeErr::NotAllocated));
    assert_eq!(h.deallocate(16, 8, 16), Ok(()));
    assert_eq!(h.free_blocks(), blocks(&[(1, 100)]));
}

#[test]
fn remainder_takes_the_chosen_block_place() {
    let mut h = Heap::new(0, 96);
    assert_eq!(h.allocate(8, 1), Ok(0));
    assert_eq!(h.allocate(8, 1), Ok(8));
    assert_eq!(h.allocate(8, 1), Ok(16));
    assert_eq!(h.allocate(8, 1), Ok(24));
    assert_eq!(h.deallocate(0, 8, 1), Ok(()));
    assert_eq!(h.deallocate(16, 8, 1), Ok(()));
    assert_eq!(h.free_blocks(), blocks(&[(16, 8), (0, 8), (32, 64)]));
    assert_eq!(h.allocate(4, 4), Ok(16));
    assert_eq!(h.free_blocks(), blocks(&[(20, 4), (0, 8), (32, 64)]));
    assert_eq!(h.allocate(2, 8), Ok(0));
    assert_eq!(h.free_blocks(), blocks(&[(20, 4), (2, 6), (32, 64)]));
    assert_eq!(h.allocate(1, 4), Ok(20));
    assert_eq!(h.free_blocks(), blocks(&[(21, 3), (2, 6), (32, 64)]));
    assert_eq!(h.allocate(2, 4), Ok(4));
    assert_eq!(h.live_blocks(), blocks(&[(8, 8), (24, 8), (16, 4), (0, 2), (20, 1), (2, 4)]));
    assert_eq!(h.free_blocks(), blocks(&[(21, 3), (6, 2), (32, 64)]));
}

#[test]
fn large_alignment_is_honoured() {
    let mut h = Heap::new(0x10, 0x3000);
    assert_eq!(h.allocate(1, 0x1000), Ok(0x1000));
    assert_eq!(h.allocate(1, 0x1000), Ok(0x2000));
    assert_eq!(h.allocate(1, 0x1000), Err(AllocErr::Exhausted));
}

#[test]
fn zero_size_or_alignment_is_unsupported() {
    let mut h = Heap::new(0, 64);
    assert_eq!(h.allocate(0, 8), Err(AllocErr::Unsupported));
    assert_eq!(h.allocate(8, 0), Err(AllocErr::Unsupported));
    assert_eq!(h.free_blocks(), blocks(&[(0, 64)]));
}

#[test]
fn empty_region_serves_nothing() {
    let mut h = Heap::new(0x40, 0x40);
    assert_eq!(h.size(), 0);
    assert_eq!(h.free_blocks(), blocks(&[]));
    assert_eq!(h.allocate(1, 1), Err(AllocErr::Exhausted));
}

#[test]
fn freeing_unknown_range_is_refused() {
    let mut h = Heap::new(0, 64);
    assert_eq!(h.allocate(16, 1), Ok(0));
    assert_eq!(h.deallocate(0, 8, 1), Err(FreeErr::NotAllocated));
    assert_eq!(h.deallocate(16, 16, 1), Err(FreeErr::NotAllocated));
    assert_eq!(h.deallocate(0, 16, 1), Ok(()));
    assert_eq!(h.deallocate(0, 16, 1), Err(FreeErr::NotAllocated));
}

#[test]
fn conservation_over_a_sequence() {
    let mut h = Heap::new(0x8000, 0x9000);
    let mut held: Vec<(usize, usize, usize)> = Vec::new();
    let mut seed: u64 = 7;
    for _ in 0..400 {
        seed = seed.wrapping_mul(6364136223846793005).wrapping_add(1442695040888963407);
        let pick = (seed >> 33) as usize;
        if pick % 3 != 0 || held.is_empty() {
            let size = 1 + pick % 200;
            let align = 1usize << (pick % 7);
            if let Ok(p) = h.allocate(size, align) {
                assert_eq!(p % align, 0);
                held.push((p, size, align));
            }
        } else {
            let (p, size, align) = held.swap_remove(pick % held.len());
            assert_eq!(h.deallocate(p, size, align), Ok(()));
        }
        let requested: usize = held.iter().map(|&(_, s, _)| s).sum();
        let live = bytes(&h.live_blocks());
        assert!(requested <= live);
        assert_eq!(live + bytes(&h.free_blocks()), h.size());
    }
    while let Some((p, size, align)) = held.pop() {
        assert_eq!(h.deallocate(p, size, align), Ok(()));
    }
    assert_eq!(h.free_blocks(), blocks(&[(0x8000, 0x1000)]));
}
