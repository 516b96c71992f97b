use core::mem::MaybeUninit;
use kernel_core::allocator::fixed_size_block::{
    list_index, FixedSizeBlockAllocator, Release, BLOCK_SIZES,
};

const HEAP_SIZE: usize = 64 * 1024;

fn heap() -> (FixedSizeBlockAllocator, usize) {
    let mem: &'static mut [MaybeUninit<u8>] =
        Box::leak(vec![MaybeUninit::<u8>::uninit(); HEAP_SIZE].into_boxed_slice());
    let base = mem.as_ptr() as usize;
    let mut allocator = FixedSizeBlockAllocator::new();
    allocator.init(mem);
    (allocator, base)
}

fn inside(addr: usize, size: usize, base: usize) -> bool {
    base <= addr && addr + size <= base + HEAP_SIZE
}

fn apart(a: usize, n: usize, b: usize, m: usize) -> bool {
    a + n <= b || b + m <= a
}

#[test]
fn block_sizes_ascend_from_8_to_2048() {
    assert_eq!(BLOCK_SIZES, [8, 16, 32, 64, 128, 256, 512, 1024, 2048]);
}

#[test]
fn list_index_picks_smallest_class_that_fits() {
    assert_eq!(list_index(1, 1), Some(0));
    assert_eq!(list_index(3, 4), Some(0));
    assert_eq!(list_index(8, 8), Some(0));
    assert_eq!(list_index(9, 1), Some(1));
    assert_eq!(list_index(16, 1), Some(1));
    assert_eq!(list_index(17, 8), Some(2));
    assert_eq!(list_index(100, 4), Some(4));
    assert_eq!(list_index(2048, 8), Some(8));
}

#[test]
fn list_index_goes_by_alignment_where_it_is_larger() {
    assert_eq!(list_index(1, 64), Some(3));
    assert_eq!(list_index(8, 2048), Some(8));
}

#[test]
fn list_index_has_no_class_above_2048() {
    assert_eq!(list_index(2049, 1), None);
    assert_eq!(list_index(2050, 8), None);
    assert_eq!(list_index(1, 4096), None);
}

#[test]
fn allocate_fails_before_init() {
    let mut allocator = FixedSizeBlockAllocator::new();
    assert_eq!(allocator.allocate(8, 8), None);
    assert_eq!(allocator.allocate(4096, 8), None);
}

#[test]
fn allocate_returns_aligned_block_inside_the_heap() {
    let (mut allocator, base) = heap();
    for &(size, align) in &[(1usize, 1usize), (3, 4), (16, 16), (100, 64), (2050, 8), (5000, 4096)] {
        let addr = allocator.allocate(size, align).unwrap();
        assert_eq!(addr % align, 0);
        assert!(inside(addr, size, base));
    }
}

#[test]
fn live_blocks_do_not_overlap() {
    let (mut allocator, _) = heap();
    let requests = [(3usize, 4usize), (16, 8), (2050, 8), (8, 8), (300, 2), (3000, 16), (16, 8)];
    let mut live: Vec<(usize, usize)> = Vec::new();
    for &(size, align) in &requests {
        let addr = allocator.allocate(size, align).unwrap();
        for &(other, other_size) in &live {
            assert!(apart(addr, size, other, other_size));
        }
        live.push((addr, size));
    }
}

#[test]
fn freed_block_is_the_next_to_be_reused() {
    let (mut allocator, _) = heap();
    let first = allocator.allocate(24, 8).unwrap();
    assert_eq!(allocator.deallocate(first, 24, 8), Release::Recycled);
    assert_eq!(allocator.allocate(32, 4), Some(first));
}

#[test]
fn reuse_is_last_in_first_out() {
    let (mut allocator, _) = heap();
    let a = allocator.allocate(8, 8).unwrap();
    let b = allocator.allocate(8, 8).unwrap();
    assert_ne!(a, b);
    assert_eq!(allocator.deallocate(a, 8, 8), Release::Recycled);
    assert_eq!(allocator.deallocate(b, 8, 8), Release::Recycled);
    assert_eq!(allocator.allocate(8, 8), Some(b));
    assert_eq!(allocator.allocate(8, 8), Some(a));
}

#[test]
fn freed_block_is_not_reused_by_another_class() {
    let (mut allocator, _) = heap();
    let small = allocator.allocate(8, 8).unwrap();
    assert_eq!(allocator.deallocate(small, 8, 8), Release::Recycled);
    let other = allocator.allocate(16, 8).unwrap();
    assert_ne!(other, small);
    assert_eq!(allocator.allocate(5, 1), Some(small));
}

#[test]
fn small_requests_use_classes_and_large_ones_the_arena() {
    let (mut allocator, base) = heap();
    assert_eq!(list_index(3, 4), Some(0));
    assert_eq!(list_index(16, 8), Some(1));
    assert_eq!(list_index(2050, 8), None);
    let a = allocator.allocate(3, 4).unwrap();
    let b = allocator.allocate(16, 8).unwrap();
    let c = allocator.allocate(2050, 8).unwrap();
    assert!(inside(a, 8, base) && inside(b, 16, base) && inside(c, 2050, base));
    assert!(apart(a, 8, b, 16) && apart(a, 8, c, 2050) && apart(b, 16, c, 2050));
    assert_eq!(allocator.deallocate(a, 3, 4), Release::Recycled);
    assert_eq!(allocator.deallocate(b, 16, 8), Release::Recycled);
    assert_eq!(allocator.deallocate(c, 2050, 8), Release::ReturnToArena);
    assert_eq!(allocator.allocate(8, 1), Some(a));
    assert_eq!(allocator.allocate(9, 1), Some(b));
}

#[test]
fn class_block_has_room_for_the_whole_class() {
    let (mut allocator, _) = heap();
    let a = allocator.allocate(3, 1).unwrap();
    let b = allocator.allocate(3, 1).unwrap();
    assert!(apart(a, 8, b, 8));
}

#[test]
fn allocate_fails_when_the_heap_is_exhausted() {
    let (mut allocator, _) = heap();
    assert_eq!(allocator.allocate(HEAP_SIZE * 2, 8), None);
    let mut count = 0;
    while allocator.allocate(2048, 8).is_some() {
        count += 1;
        assert!(count <= HEAP_SIZE / 2048);
    }
    assert!(count >= HEAP_SIZE / 2048 - 2);
    assert_eq!(allocator.allocate(2048, 8), None);
    assert_eq!(allocator.allocate(4000, 8), None);
}

#[test]
fn request_beyond_the_address_space_fails() {
    let (mut allocator, _) = heap();
    assert_eq!(allocator.allocate(usize::MAX / 2, 8), None);
    assert_eq!(allocator.allocate(usize::MAX - 100, 1), None);
    assert_eq!(allocator.allocate(4096, 1 << 62), None);
}

#[test]
fn arena_is_reachable_for_returning_large_blocks() {
    let (mut allocator, base) = heap();
    let block = allocator.allocate(4096, 8).unwrap();
    assert_eq!(allocator.deallocate(block, 4096, 8), Release::ReturnToArena);
    let arena = allocator.fallback_allocator_mut();
    assert_eq!(arena.bottom(), base);
    assert_eq!(arena.size(), HEAP_SIZE);
}

#[test]
fn recycled_blocks_keep_the_alignment_of_their_class() {
    let (mut allocator, _) = heap();
    let mut blocks: Vec<(usize, usize)> = Vec::new();
    for &size in BLOCK_SIZES.iter() {
        let addr = allocator.allocate(size, size).unwrap();
        assert_eq!(addr % size, 0);
        blocks.push((addr, size));
    }
    for &(addr, size) in &blocks {
        assert_eq!(allocator.deallocate(addr, size, size), Release::Recycled);
    }
    for &(addr, size) in &blocks {
        let align = if size > 8 { size / 2 } else { size };
        assert_eq!(allocator.allocate(size - 1, align), Some(addr));
        assert_eq!(addr % align, 0);
    }
}

#[test]
fn released_arena_block_is_not_recycled() {
    let (mut allocator, base) = heap();
    let block = allocator.allocate(3000, 8).unwrap();
    assert_eq!(allocator.deallocate(block, 3000, 8), Release::ReturnToArena);
    let next = allocator.allocate(3000, 8).unwrap();
    assert!(inside(next, 3000, base));
    assert!(apart(next, 3000, block, 3000));
}

fn heap_off_by_eight() -> (FixedSizeBlockAllocator, usize) {
    let mem: &'static mut [MaybeUninit<u8>] =
        Box::leak(vec![MaybeUninit::<u8>::uninit(); HEAP_SIZE + 64].into_boxed_slice());
    let start = mem.as_ptr() as usize;
    let skip = (0..32).find(|k| (start + k) % 16 == 8).unwrap();
    let (_, rest) = mem.split_at_mut(skip);
    let (region, _) = rest.split_at_mut(HEAP_SIZE);
    let base = region.as_ptr() as usize;
    assert_eq!(base % 16, 8);
    let mut allocator = FixedSizeBlockAllocator::new();
    allocator.init(region);
    (allocator, base)
}

#[test]
fn class_blocks_are_aligned_to_the_class_size_whatever_was_asked() {
    let (mut allocator, base) = heap_off_by_eight();
    for &size in BLOCK_SIZES.iter() {
        for &align in &[1usize, 2, 8] {
            let addr = allocator.allocate(size, align).unwrap();
            assert_eq!(addr % size, 0);
            assert!(inside(addr, size, base));
        }
    }
}

#[test]
fn recycled_block_serves_a_stricter_alignment_of_its_class() {
    let (mut allocator, _) = heap_off_by_eight();
    let first = allocator.allocate(16, 8).unwrap();
    assert_eq!(first % 16, 0);
    assert_eq!(allocator.deallocate(first, 16, 8), Release::Recycled);
    assert_eq!(allocator.allocate(16, 16), Some(first));
    let other = allocator.allocate(3, 1).unwrap();
    assert_eq!(allocator.deallocate(other, 3, 1), Release::Recycled);
    assert_eq!(allocator.allocate(1, 8), Some(other));
    assert_eq!(other % 8, 0);
}

#[test]
fn failed_request_changes_nothing() {
    let mem: &'static mut [MaybeUninit<u8>] =
        Box::leak(vec![MaybeUninit::<u8>::uninit(); 1024].into_boxed_slice());
    let mut allocator = FixedSizeBlockAllocator::new();
    allocator.init(mem);
    let used = allocator.fallback_allocator_mut().used();
    assert_eq!(allocator.allocate(4096, 8), None);
    assert_eq!(allocator.fallback_allocator_mut().used(), used);
    let small = allocator.allocate(64, 8).unwrap();
    assert_eq!(allocator.deallocate(small, 64, 8), Release::Recycled);
    assert_eq!(allocator.allocate(2048, 8), None);
    assert_eq!(allocator.allocate(64, 64), Some(small));
}

#[test]
fn blocks_lie_in_the_region_given_to_init() {
    let (mut allocator, base) = heap_off_by_eight();
    let arena = allocator.fallback_allocator_mut();
    assert_eq!(arena.bottom(), base);
    assert_eq!(arena.top(), base + HEAP_SIZE);
    let mut count = 0;
    while let Some(addr) = allocator.allocate(1000, 8) {
        assert!(inside(addr, 1024, base));
        count += 1;
    }
    assert!(count >= HEAP_SIZE / 1024 - 2);
    while let Some(addr) = allocator.allocate(8, 8) {
        assert!(inside(addr, 8, base));
    }
}
