use hannos::allocator::align_up;
use hannos::allocator::buddy::BuddyAllocator;
use hannos::allocator::bump::BumpAllocator;
use hannos::allocator::fixed::FixedSizeAllocator;

const HEAP: usize = 0x10_0000;

#[test]
fn align_up_rounds_to_multiple() {
    assert_eq!(align_up(0, 8), Some(0));
    assert_eq!(align_up(1, 8), Some(8));
    assert_eq!(align_up(16, 8), Some(16));
    assert_eq!(align_up(17, 16), Some(32));
    assert_eq!(align_up(usize::MAX, 16), None);
}

#[test]
fn bump_three_allocations_then_reset() {
    let mut a = BumpAllocator::new();
    a.init(HEAP, 1024);
    let first = a.allocate(100, 8).unwrap();
    let second = a.allocate(100, 8).unwrap();
    let third = a.allocate(100, 8).unwrap();
    assert_eq!(first, HEAP);
    assert_eq!(second, HEAP + 104);
    assert_eq!(third, HEAP + 208);
    for p in [first, second, third] {
        assert_eq!(p % 8, 0);
    }
    assert!(first + 100 <= second && second + 100 <= third);
    a.deallocate();
    a.deallocate();
    a.deallocate();
    assert_eq!(a.allocate(50, 8), Some(HEAP));
}

#[test]
fn bump_partial_free_does_not_reclaim() {
    let mut a = BumpAllocator::new();
    a.init(HEAP, 1024);
    let first = a.allocate(100, 8).unwrap();
    let _second = a.allocate(100, 8).unwrap();
    a.deallocate();
    let third = a.allocate(10, 1).unwrap();
    assert!(third >= first + 200);
}

#[test]
fn bump_round_trip_same_address() {
    let mut a = BumpAllocator::new();
    a.init(HEAP, 1024);
    let p = a.allocate(64, 16).unwrap();
    a.deallocate();
    assert_eq!(a.allocate(64, 16), Some(p));
}

#[test]
fn bump_boundaries() {
    let mut a = BumpAllocator::new();
    a.init(HEAP, 1024);
    assert_eq!(a.allocate(0, 1), Some(HEAP));
    assert_eq!(a.allocate(1025, 1), None);
    assert_eq!(a.allocate(1024, 1), Some(HEAP));
    assert_eq!(a.allocate(1, 1), None);
    assert_eq!(a.allocate(0, 1), Some(HEAP + 1024));
}

#[test]
fn bump_alignment_padding() {
    let mut a = BumpAllocator::new();
    a.init(HEAP + 1, 1024);
    assert_eq!(a.allocate(4, 16), Some(HEAP + 16));
    assert_eq!(a.allocate(4, 4), Some(HEAP + 20));
}

#[test]
fn buddy_order_values() {
    assert_eq!(BuddyAllocator::order(0), 0);
    assert_eq!(BuddyAllocator::order(1), 0);
    assert_eq!(BuddyAllocator::order(14), 0);
    assert_eq!(BuddyAllocator::order(15), 1);
    assert_eq!(BuddyAllocator::order(30), 1);
    assert_eq!(BuddyAllocator::order(31), 2);
    assert_eq!(BuddyAllocator::order(254), 4);
    assert_eq!(BuddyAllocator::order(16 * (1 << 24) - 2), 24);
    assert_eq!(BuddyAllocator::order(16 * (1 << 24) - 1), 25);
    let mut last = 0;
    for size in 0..5000usize {
        let o = BuddyAllocator::order(size);
        assert!(o >= last);
        last = o;
    }
}

#[test]
fn buddy_splits_until_exhausted_and_never_merges() {
    let mut a = BuddyAllocator::new();
    a.init(HEAP, 256);
    let mut ptrs = Vec::new();
    for _ in 0..16 {
        let p = a.allocate(1, 1).expect("an order-0 block is left");
        ptrs.push(p);
    }
    for (i, p) in ptrs.iter().enumerate() {
        assert_eq!(*p, HEAP + 16 * i + 2);
    }
    assert_eq!(a.allocate(1, 1), None);
    for p in &ptrs {
        a.deallocate(*p);
    }
    assert_eq!(a.allocate(254, 1), None);
    assert_eq!(a.allocate(1, 1), Some(HEAP + 2));
}

#[test]
fn buddy_first_allocation_halves_heap() {
    let mut a = BuddyAllocator::new();
    a.init(HEAP, 256);
    assert_eq!(a.allocate(100, 2), Some(HEAP + 2));
    assert_eq!(a.allocate(100, 2), Some(HEAP + 128 + 2));
    assert_eq!(a.allocate(1, 2), None);
}

#[test]
fn buddy_heap_rounds_down() {
    let mut a = BuddyAllocator::new();
    a.init(HEAP, 300);
    assert_eq!(a.allocate(254, 1), Some(HEAP + 2));
    assert_eq!(a.allocate(1, 1), None);
    let mut tiny = BuddyAllocator::new();
    tiny.init(HEAP, 15);
    assert_eq!(tiny.allocate(0, 1), None);
}

#[test]
fn buddy_round_trip_same_address() {
    let mut a = BuddyAllocator::new();
    a.init(HEAP, 4096);
    let p = a.allocate(40, 8).unwrap();
    assert_eq!(p, HEAP + 8);
    a.deallocate(p);
    assert_eq!(a.allocate(40, 8), Some(p));
}

#[test]
fn buddy_large_alignment_stays_in_its_block() {
    let mut a = BuddyAllocator::new();
    a.init(0x10000, 256);
    let p = a.allocate(1, 64).unwrap();
    assert_eq!(p, 0x10040);
    a.deallocate(p);
    // The block that was used is free again, so the same request is served from it.
    assert_eq!(a.allocate(1, 64), Some(0x10040));
    assert_eq!(a.allocate(1, 64), Some(0x100c0));
    assert_eq!(a.allocate(1, 64), None);
}

#[test]
fn buddy_aligned_payloads_do_not_overlap() {
    let mut a = BuddyAllocator::new();
    a.init(HEAP, 256);
    let p = a.allocate(14, 8).unwrap();
    assert_eq!(p, HEAP + 8);
    let q = a.allocate(1, 1).unwrap();
    assert_eq!(q, HEAP + 34);
    assert!(p + 14 <= q);
}

#[test]
fn buddy_boundaries() {
    let mut a = BuddyAllocator::new();
    a.init(HEAP, 256);
    assert_eq!(a.allocate(255, 1), None);
    assert_eq!(a.allocate(0, 1), Some(HEAP + 2));
    assert_eq!(a.allocate(16 * (1 << 24), 1), None);
}

#[test]
fn fixed_reuses_freed_block() {
    let mut a = FixedSizeAllocator::new();
    a.init(HEAP, 0x1_0000);
    let x = a.allocate(100, 8).unwrap();
    assert_eq!(x, HEAP);
    a.deallocate(x, 100);
    assert_eq!(a.allocate(100, 8), Some(x));
    assert_eq!(a.allocate(100, 8), Some(HEAP + 128));
}

#[test]
fn fixed_splits_larger_free_block() {
    let mut a = FixedSizeAllocator::new();
    a.init(HEAP, 0x1_0000);
    let big = a.allocate(2048, 8).unwrap();
    a.deallocate(big, 2048);
    // 2048 is split down to 8, each time going on with the upper half.
    assert_eq!(a.allocate(8, 8), Some(big + 2040));
    assert_eq!(a.allocate(8, 8), Some(big + 2032));
    assert_eq!(a.allocate(16, 8), Some(big + 2016));
    assert_eq!(a.allocate(1024, 8), Some(big));
}

#[test]
fn fixed_pads_for_alignment() {
    let mut a = FixedSizeAllocator::new();
    a.init(HEAP, 0x1_0000);
    assert_eq!(a.allocate(8, 8), Some(HEAP));
    // The gap up to the next 64-byte boundary becomes free blocks of 8, 16 and 32 bytes, each
    // at a multiple of its own size.
    assert_eq!(a.allocate(64, 64), Some(HEAP + 64));
    assert_eq!(a.allocate(32, 8), Some(HEAP + 32));
    assert_eq!(a.allocate(16, 8), Some(HEAP + 16));
    assert_eq!(a.allocate(8, 8), Some(HEAP + 8));
}

#[test]
fn fixed_carves_at_class_alignment() {
    let mut a = FixedSizeAllocator::new();
    a.init(HEAP, 0x1_0000);
    assert_eq!(a.allocate(8, 8), Some(HEAP));
    let x = a.allocate(100, 8).unwrap();
    assert_eq!(x, HEAP + 128);
    a.deallocate(x, 100);
    let y = a.allocate(128, 128).unwrap();
    assert_eq!(y % 128, 0);
    assert_eq!(a.allocate(64, 8), Some(HEAP + 64));
    assert_eq!(a.allocate(32, 8), Some(HEAP + 32));
    assert_eq!(a.used_memory(), 256);
}

#[test]
fn fixed_large_alignment_is_respected() {
    let mut a = FixedSizeAllocator::new();
    a.init(HEAP, 0x10_0000);
    assert_eq!(a.allocate(8, 8), Some(HEAP));
    let big = a.allocate(4096, 8192).unwrap();
    assert_eq!(big % 8192, 0);
    assert_eq!(big, HEAP + 8192);
    // A free block is reused with the alignment it was carved at.
    assert_eq!(a.allocate(16, 4096), Some(HEAP + 16));
    assert!(a.owns(big, 4096));
    assert!(!a.owns(big + 8, 4096));
}

#[test]
fn fixed_huge_allocation_is_contiguous() {
    let mut a = FixedSizeAllocator::new();
    a.init(HEAP, 0x1_0000);
    assert_eq!(a.allocate(5000, 8), Some(HEAP));
    assert_eq!(a.allocate(4096, 8), Some(HEAP + 3 * 2048));
    assert_eq!(a.allocate(8, 8), Some(HEAP + 5 * 2048));
    a.deallocate(HEAP, 5000);
    assert_eq!(a.allocate(2048, 8), Some(HEAP + 2 * 2048));
    assert_eq!(a.allocate(2048, 8), Some(HEAP + 2048));
    assert_eq!(a.allocate(2048, 8), Some(HEAP));
}

#[test]
fn fixed_boundaries() {
    let mut a = FixedSizeAllocator::new();
    a.init(HEAP, 1024);
    assert_eq!(a.allocate(2048, 8), None);
    assert_eq!(a.allocate(5000, 8), None);
    assert_eq!(a.allocate(0, 1), Some(HEAP));
    assert_eq!(a.allocate(1024, 1), None);
    let mut small = FixedSizeAllocator::new();
    small.init(HEAP, 8);
    assert_eq!(small.allocate(0, 1), Some(HEAP));
    assert_eq!(small.allocate(0, 1), None);
}

#[test]
fn fixed_owns_rejects_free_blocks() {
    let mut a = FixedSizeAllocator::new();
    a.init(HEAP, 0x1_0000);
    let x = a.allocate(100, 8).unwrap();
    assert!(a.owns(x, 100));
    assert!(!a.owns(x + 8, 100));
    a.deallocate(x, 100);
    assert!(!a.owns(x, 100));
    assert!(!a.owns(x, 128));
    let y = a.allocate(5000, 8).unwrap();
    assert!(a.owns(y, 5000));
    assert!(!a.owns(y + 2048, 5000));
}

#[test]
fn buddy_small_alignment_uses_the_request_order() {
    let mut a = BuddyAllocator::new();
    a.init(0x10000, 256);
    // 14 bytes aligned to 2 fit an order-0 block right after its header.
    assert_eq!(a.allocate(14, 2), Some(0x10002));
    assert_eq!(a.allocate(1, 1), Some(0x10012));
    // 8 bytes aligned to 8 start 8 bytes into a 16-byte block and end at its end.
    assert_eq!(a.allocate(8, 8), Some(0x10028));
    assert_eq!(a.allocate(1, 1), Some(0x10032));
    // 9 bytes aligned to 8 no longer fit a 16-byte block.
    assert_eq!(a.allocate(9, 8), Some(0x10048));
    assert_eq!(a.allocate(1, 1), Some(0x10062));
}
