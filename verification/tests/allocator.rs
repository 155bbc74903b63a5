use mymalloc::heap::Allocator;
use mymalloc::heap::Ptr;
use mymalloc::ALIGN;

const BUDGET: usize = 1 << 20;

fn write_pattern(a: &mut Allocator, p: Ptr, len: usize, seed: u8) {
    let mut i: usize = 0;
    while i < len {
        a.store(p, i, seed.wrapping_add(i as u8));
        i += 1;
    }
}

fn check_pattern(a: &Allocator, p: Ptr, len: usize, seed: u8) {
    let mut i: usize = 0;
    while i < len {
        assert_eq!(a.load(p, i), seed.wrapping_add(i as u8));
        i += 1;
    }
}

#[test]
fn allocate_returns_aligned_writable_block() {
    let mut a = Allocator::new(BUDGET);
    let p = a.allocate(100).expect("allocation should succeed");
    assert!(a.owns(p));
    assert!(a.capacity_of(p) >= 100);
    assert_eq!(p.off % ALIGN, 0);
    write_pattern(&mut a, p, 100, 7);
    check_pattern(&a, p, 100, 7);
}

#[test]
fn allocate_zero_returns_null() {
    let mut a = Allocator::new(BUDGET);
    assert_eq!(a.allocate(0), None);
}

#[test]
fn allocate_out_of_memory_returns_null() {
    let mut a = Allocator::new(0);
    assert_eq!(a.allocate(1), None);
    let mut b = Allocator::new(65536);
    assert!(b.allocate(16).is_some());
    // the region source is exhausted, and no free block is that large
    assert_eq!(b.allocate(65536), None);
}

#[test]
fn release_then_reallocate_does_not_corrupt_neighbors() {
    let mut a = Allocator::new(BUDGET);
    let p = a.allocate(64).expect("alloc");
    let q = a.allocate(64).expect("alloc");
    write_pattern(&mut a, q, 64, 31);
    a.release(Some(p));
    assert!(!a.owns(p));
    let r = a.allocate(64).expect("alloc");
    write_pattern(&mut a, r, 64, 99);
    check_pattern(&a, q, 64, 31);
}

#[test]
fn release_null_is_noop() {
    let mut a = Allocator::new(BUDGET);
    a.release(None);
    assert_eq!(a.region_count(), 0);
}

#[test]
fn release_foreign_pointer_is_caught() {
    let mut a = Allocator::new(BUDGET);
    let p = a.allocate(32).expect("alloc");
    let bogus = Ptr { region: 17, off: 4096 };
    assert!(!a.owns(bogus));
    a.release(Some(bogus));
    // the live allocation is untouched
    assert!(a.owns(p));
}

#[test]
fn releasing_everything_coalesces_each_region_to_one_block() {
    let mut a = Allocator::new(BUDGET);
    let mut live: Vec<Ptr> = Vec::new();
    for s in [100usize, 20, 300, 8, 64, 1000, 48, 512] {
        live.push(a.allocate(s).expect("alloc"));
    }
    // release in a scrambled order
    for i in [3usize, 0, 7, 2, 5, 1, 6, 4] {
        a.release(Some(live[i]));
    }
    let regions: usize = a.region_count();
    assert!(regions >= 1);
    let mut r: usize = 0;
    while r < regions {
        assert!(a.all_free(r));
        assert_eq!(a.block_count(r), 1);
        r += 1;
    }
}

#[test]
fn zero_allocate_payload_is_all_zero() {
    let mut a = Allocator::new(BUDGET);
    // dirty the heap first, then free, so the reused block has stale bytes
    let d = a.allocate(150).expect("alloc");
    write_pattern(&mut a, d, 150, 0xAB);
    a.release(Some(d));
    let p = a.zero_allocate(3, 50).expect("alloc");
    let mut i: usize = 0;
    while i < 150 {
        assert_eq!(a.load(p, i), 0);
        i += 1;
    }
}

#[test]
fn zero_allocate_overflow_returns_null() {
    let mut a = Allocator::new(BUDGET);
    assert_eq!(a.zero_allocate(usize::MAX, 2), None);
    assert_eq!(a.region_count(), 0);
}

#[test]
fn zero_allocate_zero_count_returns_null() {
    let mut a = Allocator::new(BUDGET);
    assert_eq!(a.zero_allocate(0, 8), None);
    assert_eq!(a.zero_allocate(8, 0), None);
}

#[test]
fn resize_preserves_prefix_when_moving() {
    let mut a = Allocator::new(BUDGET);
    let p = a.allocate(100).expect("alloc");
    write_pattern(&mut a, p, 100, 5);
    // wedge another allocation right after, so growing must move
    let wedge = a.allocate(200).expect("alloc");
    write_pattern(&mut a, wedge, 200, 77);
    let q = a.resize_allocate(Some(p), 5000).expect("resize");
    assert!(a.capacity_of(q) >= 5000);
    check_pattern(&a, q, 100, 5);
    check_pattern(&a, wedge, 200, 77);
}

#[test]
fn resize_in_place_when_block_already_fits() {
    let mut a = Allocator::new(BUDGET);
    let p = a.allocate(100).expect("alloc");
    write_pattern(&mut a, p, 100, 11);
    let q = a.resize_allocate(Some(p), 10).expect("resize");
    assert_eq!(q, p);
    check_pattern(&a, p, 10, 11);
}

#[test]
fn resize_grows_into_free_right_neighbor() {
    let mut a = Allocator::new(BUDGET);
    let p = a.allocate(100).expect("alloc");
    write_pattern(&mut a, p, 100, 42);
    let q = a.allocate(200).expect("alloc");
    a.release(Some(q));
    let r = a.resize_allocate(Some(p), 2000).expect("resize");
    assert_eq!(r, p);
    assert!(a.capacity_of(r) >= 2000);
    check_pattern(&a, r, 100, 42);
}

#[test]
fn resize_null_acts_as_allocate() {
    let mut a = Allocator::new(BUDGET);
    let p = a.resize_allocate(None, 64).expect("resize");
    assert!(a.owns(p));
    assert!(a.capacity_of(p) >= 64);
}

#[test]
fn resize_to_zero_acts_as_release() {
    let mut a = Allocator::new(BUDGET);
    let p = a.allocate(64).expect("alloc");
    assert_eq!(a.resize_allocate(Some(p), 0), None);
    assert!(!a.owns(p));
}

#[test]
fn resize_failure_leaves_block_untouched() {
    let mut a = Allocator::new(65536);
    let p = a.allocate(100).expect("alloc");
    write_pattern(&mut a, p, 100, 3);
    // far beyond what the region source will still grant
    assert_eq!(a.resize_allocate(Some(p), 1 << 30), None);
    assert!(a.owns(p));
    check_pattern(&a, p, 100, 3);
}

#[test]
fn freed_space_is_reused_before_growing() {
    let mut a = Allocator::new(BUDGET);
    let first = a.allocate(100).expect("alloc");
    let _second = a.allocate(200).expect("alloc");
    a.release(Some(first));
    let third = a.allocate(50).expect("alloc");
    // first-fit within the classes hands back part of the freed block
    assert_eq!(a.region_count(), 1);
    assert_eq!(third, first);
}

#[test]
fn many_cycles_leak_nothing_and_keep_structure() {
    let mut a = Allocator::new(BUDGET);
    let mut live: Vec<Ptr> = Vec::new();
    let mut x: u64 = 0x2545F4914F6CDD1D;
    for round in 0..200usize {
        // a crude deterministic pseudo-random walk
        x ^= x << 13;
        x ^= x >> 7;
        x ^= x << 17;
        let size: usize = 1 + (x as usize % 700);
        if round % 3 == 2 && !live.is_empty() {
            let idx: usize = (x as usize / 7) % live.len();
            let p = live.swap_remove(idx);
            a.release(Some(p));
        } else if let Some(p) = a.allocate(size) {
            a.store(p, 0, 0xCD);
            live.push(p);
        }
    }
    for p in live.drain(..) {
        a.release(Some(p));
    }
    let regions: usize = a.region_count();
    let mut r: usize = 0;
    while r < regions {
        assert!(a.all_free(r));
        assert_eq!(a.block_count(r), 1);
        r += 1;
    }
}

#[test]
fn store_and_load_roundtrip() {
    let mut a = Allocator::new(BUDGET);
    let p = a.allocate(16).expect("alloc");
    a.store(p, 0, 0x5A);
    a.store(p, 15, 0xA5);
    assert_eq!(a.load(p, 0), 0x5A);
    assert_eq!(a.load(p, 15), 0xA5);
}
