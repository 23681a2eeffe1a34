use std::mem::MaybeUninit;

use blog_os_kernel::mm::allocator::align_up;
use blog_os_kernel::mm::allocator::bump::BumpAllocator;
use blog_os_kernel::mm::allocator::first_fit::{FirstFitAllocator, ListNode};
use blog_os_kernel::mm::allocator::fixed_size_block::{
    block_size, fallback_result, list_index, FixedSizeBlockAllocator,
};

const HEAP_START: usize = 0x4444_4444_0000;
const HEAP_SIZE: usize = 100 * 1024;

fn regions(a: &FirstFitAllocator) -> Vec<(usize, usize)> {
    a.free_regions().iter().map(|n| (n.start_addr(), n.size)).collect()
}

#[test]
fn align_up_rounds_to_multiple() {
    assert_eq!(align_up(0, 8), 0);
    assert_eq!(align_up(1, 8), 8);
    assert_eq!(align_up(8, 8), 8);
    assert_eq!(align_up(9, 8), 16);
    assert_eq!(align_up(0x1001, 0x1000), 0x2000);
    assert_eq!(align_up(5, 1), 5);
}

#[test]
fn bump_allocates_linearly_and_resets() {
    let mut bump = BumpAllocator::new();
    bump.init(0x1000, 100);
    assert_eq!(bump.allocate(10, 8), 0x1000);
    assert_eq!(bump.allocate(4, 8), 0x1010);
    // does not fit any more: 0x1014 + 100 > 0x1064
    assert_eq!(bump.allocate(100, 1), 0);
    assert_eq!(bump.allocate(0x50, 1), 0x1014);
    bump.deallocate(0x1000, 10, 8);
    bump.deallocate(0x1010, 4, 8);
    // one allocation still live: memory is not reclaimed yet
    assert_eq!(bump.allocate(1, 1), 0);
    bump.deallocate(0x1014, 0x50, 1);
    // all freed: the heap starts over
    assert_eq!(bump.allocate(1, 1), 0x1000);
}

#[test]
fn bump_init_saturates_heap_end() {
    let mut bump = BumpAllocator::new();
    bump.init(usize::MAX - 16, 1000);
    assert_eq!(bump.allocate(16, 1), usize::MAX - 16);
    assert_eq!(bump.allocate(1, 1), 0);
}

#[test]
fn first_fit_size_align_pads_requests() {
    assert_eq!(FirstFitAllocator::size_align(1024, 8), (1024, 8));
    assert_eq!(FirstFitAllocator::size_align(1, 1), (16, 8));
    assert_eq!(FirstFitAllocator::size_align(20, 8), (24, 8));
    assert_eq!(FirstFitAllocator::size_align(20, 32), (32, 32));
    assert_eq!(FirstFitAllocator::size_align(0, 64), (16, 64));
}

#[test]
fn first_fit_allocation_and_merging() {
    let s = HEAP_START;
    let mut a = FirstFitAllocator::new();
    a.init(HEAP_START, HEAP_SIZE);
    assert_eq!(regions(&a), vec![(s, HEAP_SIZE)]);

    let p1 = a.allocate(1024, 8);
    let p2 = a.allocate(1024, 8);
    let p3 = a.allocate(1024, 8);
    let p4 = a.allocate(1024, 8);
    let p5 = a.allocate(1024, 8);
    let p6 = a.allocate(1024, 8);
    assert_eq!((p1, p2, p3, p4, p5, p6), (s, s + 1024, s + 2048, s + 3072, s + 4096, s + 5120));
    assert_eq!(regions(&a), vec![(s + 6144, HEAP_SIZE - 6144)]);

    a.deallocate(p2, 1024, 8);
    a.deallocate(p4, 1024, 8);
    a.deallocate(p5, 1024, 8);
    assert_eq!(regions(&a), vec![(s + 1024, 1024), (s + 3072, 2048), (s + 6144, HEAP_SIZE - 6144)]);

    let p7 = a.allocate(512, 8);
    assert_eq!(p7, s + 1024);
    assert_eq!(regions(&a), vec![(s + 1536, 512), (s + 3072, 2048), (s + 6144, HEAP_SIZE - 6144)]);

    a.deallocate(p1, 1024, 8);
    assert_eq!(
        regions(&a),
        vec![(s, 1024), (s + 1536, 512), (s + 3072, 2048), (s + 6144, HEAP_SIZE - 6144)]
    );
    // fills the gap between two free regions: all three merge
    a.deallocate(p3, 1024, 8);
    assert_eq!(regions(&a), vec![(s, 1024), (s + 1536, 3584), (s + 6144, HEAP_SIZE - 6144)]);
    a.deallocate(p6, 1024, 8);
    assert_eq!(regions(&a), vec![(s, 1024), (s + 1536, HEAP_SIZE - 1536)]);
    a.deallocate(p7, 512, 8);
    assert_eq!(regions(&a), vec![(s, HEAP_SIZE)]);
}

#[test]
fn first_fit_takes_first_region_that_fits() {
    let s = HEAP_START;
    let mut a = FirstFitAllocator::new();
    a.init(s, 4096);
    let p1 = a.allocate(512, 8);
    let p2 = a.allocate(1024, 8);
    let _p3 = a.allocate(512, 8);
    a.deallocate(p1, 512, 8);
    a.deallocate(p2, 1024, 8);
    // freeing p2 after p1 merges them into one region of 1536 bytes
    assert_eq!(regions(&a), vec![(s, 1536), (s + 2048, 2048)]);
    // 1600 bytes do not fit the first region: the second one is used
    assert_eq!(a.allocate(1600, 8), s + 2048);
    assert_eq!(regions(&a), vec![(s, 1536), (s + 3648, 448)]);
    // too large for every region
    assert_eq!(a.allocate(2000, 8), 0);
}

#[test]
fn first_fit_alignment_padding_is_not_reclaimed() {
    let s = HEAP_START + 8;
    let mut a = FirstFitAllocator::new();
    a.init(s, 4096);
    let p = a.allocate(64, 64);
    assert_eq!(p, HEAP_START + 64);
    assert_eq!(p % 64, 0);
    // [s, p) is lost; the rest after the block goes back to the list
    assert_eq!(regions(&a), vec![(p + 64, s + 4096 - (p + 64))]);
}

#[test]
fn first_fit_frees_to_end_and_front() {
    let s = HEAP_START;
    let mut a = FirstFitAllocator::new();
    a.deallocate(s + 1000 * 16, 16, 8);
    a.deallocate(s, 16, 8);
    assert_eq!(regions(&a), vec![(s, 16), (s + 16000, 16)]);
    a.deallocate(s + 32000, 32, 8);
    assert_eq!(regions(&a), vec![(s, 16), (s + 16000, 16), (s + 32000, 32)]);
}

#[test]
fn list_node_addresses() {
    let n = ListNode::new(0x1000, 0x20);
    assert_eq!(n.start_addr(), 0x1000);
    assert_eq!(n.end_addr(), 0x1020);
}

#[test]
fn list_index_picks_smallest_block() {
    assert_eq!(list_index(1, 1), Some(0));
    assert_eq!(list_index(8, 8), Some(0));
    assert_eq!(list_index(9, 1), Some(1));
    assert_eq!(list_index(1, 16), Some(1));
    assert_eq!(list_index(100, 8), Some(4));
    assert_eq!(list_index(2048, 8), Some(8));
    assert_eq!(list_index(2049, 1), None);
    assert_eq!(list_index(1, 4096), None);
    assert_eq!(block_size(4), 128);
}

fn leaked_memory(size: usize) -> &'static mut [MaybeUninit<u8>] {
    Box::leak(vec![MaybeUninit::<u8>::uninit(); size].into_boxed_slice())
}

#[test]
fn fixed_size_block_reuses_freed_blocks() {
    let mut a = FixedSizeBlockAllocator::new();
    a.init(leaked_memory(64 * 1024));
    let p = a.allocate(16, 8);
    assert_ne!(p, 0);
    assert_eq!(p % 16, 0);
    let q = a.allocate(16, 8);
    assert_ne!(q, 0);
    assert_ne!(p, q);
    assert!(a.deallocate(p, 16, 8));
    assert!(a.deallocate(q, 10, 8));
    // the most recently freed block of the class comes back first
    assert_eq!(a.allocate(12, 4), q);
    assert_eq!(a.allocate(16, 16), p);
}

#[test]
fn fixed_size_block_large_requests_use_fallback() {
    let mut a = FixedSizeBlockAllocator::new();
    a.init(leaked_memory(64 * 1024));
    let p = a.allocate(5000, 8);
    assert_ne!(p, 0);
    assert_eq!(p % 8, 0);
    // a block without a class is not kept in a block list
    assert!(!a.deallocate(p, 5000, 8));
    let (counts, blocks, bytes) = a.free_block_stats();
    assert_eq!(counts, vec![0; 9]);
    assert_eq!((blocks, bytes), (0, 0));
}

#[test]
fn fixed_size_block_without_memory_fails() {
    let mut a = FixedSizeBlockAllocator::new();
    assert_eq!(a.allocate(32, 8), 0);
    assert_eq!(a.allocate(4096, 8), 0);
}

#[test]
fn fixed_size_block_stats_count_free_blocks() {
    let mut a = FixedSizeBlockAllocator::new();
    assert!(a.deallocate(0x1000, 8, 8));
    assert!(a.deallocate(0x2000, 100, 8));
    assert!(a.deallocate(0x3000, 128, 8));
    assert!(a.deallocate(0x4000, 2048, 2048));
    let (counts, blocks, bytes) = a.free_block_stats();
    assert_eq!(counts, vec![1, 0, 0, 0, 2, 0, 0, 0, 1]);
    assert_eq!(blocks, 4);
    assert_eq!(bytes, 8 + 2 * 128 + 2048);
}

#[test]
fn fallback_answer_to_address() {
    assert_eq!(fallback_result(Ok(0x5000)), 0x5000);
    assert_eq!(fallback_result(Err(())), 0);
}

#[test]
fn fixed_size_block_tiny_memory_gives_empty_heap() {
    let mut a = FixedSizeBlockAllocator::new();
    a.init(leaked_memory(4));
    assert_eq!(a.allocate(4096, 8), 0);
    assert_eq!(a.allocate(8, 8), 0);
}

#[test]
fn fixed_size_block_fallback_blocks_lie_in_the_heap() {
    let mem = leaked_memory(8 * 1024);
    let start = mem.as_ptr() as usize;
    let mut a = FixedSizeBlockAllocator::new();
    a.init(mem);
    // an empty class list asks the heap for a block of the class's size
    let p = a.allocate(100, 8);
    assert!(p >= start && p + 128 <= start + 8 * 1024);
    assert_eq!(p % 128, 0);
    // a request without a class gets its own chunk, behind the first
    let q = a.allocate(3000, 8);
    assert!(q >= start && q + 3000 <= start + 8 * 1024);
    assert!(q >= p + 128 || q + 3000 <= p);
    // more than the heap holds
    assert_eq!(a.allocate(7000, 8), 0);
}

#[test]
fn fixed_size_block_try_allocate_matches_allocate() {
    let mut a = FixedSizeBlockAllocator::new();
    a.init(leaked_memory(64 * 1024));
    let mut b = FixedSizeBlockAllocator::new();
    assert_eq!(b.try_allocate(64, 8), Some(0));
    let p = a.try_allocate(64, 8).unwrap();
    assert_ne!(p, 0);
    assert!(a.deallocate(p, 64, 8));
    assert_eq!(a.try_allocate(64, 8), Some(p));
    assert!(a.try_allocate(5000, 8).unwrap() != 0);
}

#[test]
fn first_fit_merges_touching_regions() {
    let s = HEAP_START;
    let mut a = FirstFitAllocator::new();
    // two heaps added back to back: neighbouring regions that touch
    a.init(s + 1024, 1024);
    a.init(s, 1024);
    assert_eq!(regions(&a), vec![(s, 1024), (s + 1024, 1024)]);
    // freeing memory right behind the second region appends it there; the
    // touching regions stay two
    a.deallocate(s + 2048, 64, 8);
    assert_eq!(regions(&a), vec![(s, 1024), (s + 1024, 1088)]);
    // the rest of the first region, behind the block, merges with the next
    let p = a.allocate(512, 8);
    assert_eq!(p, s);
    assert_eq!(regions(&a), vec![(s + 512, 1600)]);
    a.deallocate(p, 512, 8);
    assert_eq!(regions(&a), vec![(s, 2112)]);
}

#[test]
fn bump_fits_tells_which_requests_succeed() {
    let mut bump = BumpAllocator::new();
    bump.init(0x1000, 100);
    assert!(bump.fits(100, 1));
    assert!(!bump.fits(101, 1));
    assert_eq!(bump.allocate(3, 1), 0x1000);
    // aligning to 8 skips to 0x1008, leaving 92 bytes
    assert!(bump.fits(92, 8));
    assert!(!bump.fits(93, 8));
    assert_eq!(bump.allocate(93, 8), 0);
    assert_eq!(bump.allocation_count(), 1);
}
