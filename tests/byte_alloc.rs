use axalloc_hash::byte_alloc::{AllocError, NewByteAllocator};
use axalloc_hash::layout::Layout;

fn layout(size: usize, align: usize) -> Layout {
    Layout::from_size_align(size, align).unwrap()
}

fn heap(start: usize, size: usize) -> NewByteAllocator {
    let mut a = NewByteAllocator::new();
    a.init(start, size);
    a
}

#[test]
fn layout_rejects_non_power_of_two() {
    assert!(Layout::from_size_align(8, 3).is_none());
    assert!(Layout::from_size_align(8, 0).is_none());
    let l = Layout::from_size_align(8, 16).unwrap();
    assert_eq!(l.size(), 8);
    assert_eq!(l.align(), 16);
}

#[test]
fn new_allocator_is_empty() {
    let a = NewByteAllocator::new();
    assert_eq!(a.total_bytes(), 0);
    assert_eq!(a.used_bytes(), 0);
    assert_eq!(a.available_bytes(), 0);
}

#[test]
fn alloc_on_empty_allocator_fails() {
    let mut a = NewByteAllocator::new();
    assert_eq!(a.allocate(layout(1, 1)), Err(AllocError::NoMemory));
}

#[test]
fn init_makes_everything_free() {
    let a = heap(0x1000, 0x100);
    assert_eq!(a.total_bytes(), 0x100);
    assert_eq!(a.used_bytes(), 0);
    assert_eq!(a.available_bytes(), 0x100);
}

#[test]
fn first_fit_takes_lowest_addresses() {
    let mut a = heap(0x1000, 0x100);
    assert_eq!(a.allocate(layout(16, 8)), Ok(0x1000));
    assert_eq!(a.allocate(layout(16, 8)), Ok(0x1010));
    assert_eq!(a.used_bytes(), 32);
    assert_eq!(a.available_bytes(), 0x100 - 32);
}

#[test]
fn alignment_padding_stays_free() {
    let mut a = heap(0x1001, 0xff);
    assert_eq!(a.allocate(layout(8, 16)), Ok(0x1010));
    assert_eq!(a.used_bytes(), 8);
    // the 15 bytes in front of the block are still handed out first
    assert_eq!(a.allocate(layout(15, 1)), Ok(0x1001));
    assert_eq!(a.used_bytes(), 23);
}

#[test]
fn accounting_adds_up_after_every_call() {
    let mut a = heap(0, 1000);
    let p = a.allocate(layout(100, 4)).unwrap();
    assert_eq!(a.used_bytes() + a.available_bytes(), a.total_bytes());
    let q = a.allocate(layout(37, 1)).unwrap();
    assert_eq!(a.used_bytes() + a.available_bytes(), a.total_bytes());
    a.dealloc(p, layout(100, 4));
    assert_eq!(a.used_bytes() + a.available_bytes(), a.total_bytes());
    a.add_memory(0, 24).unwrap();
    assert_eq!(a.used_bytes() + a.available_bytes(), a.total_bytes());
    a.dealloc(q, layout(37, 1));
    assert_eq!(a.used_bytes(), 0);
    assert_eq!(a.available_bytes(), 1024);
}

#[test]
fn live_blocks_do_not_overlap() {
    let mut a = heap(0, 256);
    let mut blocks: Vec<(usize, usize)> = Vec::new();
    for size in [10usize, 20, 30, 40] {
        let p = a.allocate(layout(size, 8)).unwrap();
        for &(q, n) in &blocks {
            assert!(p + size <= q || q + n <= p);
        }
        blocks.push((p, size));
    }
}

#[test]
fn round_trip_reuses_freed_block() {
    let mut a = heap(0, 64);
    let l = layout(64, 8);
    let p = a.allocate(l).unwrap();
    assert_eq!(a.allocate(layout(1, 1)), Err(AllocError::NoMemory));
    a.dealloc(p, l);
    assert_eq!(a.allocate(l), Ok(p));
    assert_eq!(a.total_bytes(), 64);
}

#[test]
fn too_large_request_fails() {
    let mut a = heap(0, 100);
    a.allocate(layout(30, 1)).unwrap();
    assert_eq!(a.available_bytes(), 70);
    assert_eq!(a.allocate(layout(71, 1)), Err(AllocError::NoMemory));
    assert_eq!(a.available_bytes(), 70);
}

#[test]
fn exact_available_from_one_range_succeeds() {
    let mut a = heap(0, 100);
    a.allocate(layout(30, 1)).unwrap();
    assert_eq!(a.allocate(layout(70, 1)), Ok(30));
    assert_eq!(a.available_bytes(), 0);
}

#[test]
fn fragmented_space_cannot_serve_the_sum() {
    let mut a = heap(0, 30);
    let p = a.allocate(layout(10, 1)).unwrap();
    let _q = a.allocate(layout(10, 1)).unwrap();
    let r = a.allocate(layout(10, 1)).unwrap();
    a.dealloc(p, layout(10, 1));
    a.dealloc(r, layout(10, 1));
    assert_eq!(a.available_bytes(), 20);
    assert_eq!(a.allocate(layout(20, 1)), Err(AllocError::NoMemory));
}

#[test]
fn freeing_neighbours_coalesces() {
    let mut a = heap(0, 30);
    let p = a.allocate(layout(10, 1)).unwrap();
    let q = a.allocate(layout(10, 1)).unwrap();
    let r = a.allocate(layout(10, 1)).unwrap();
    a.dealloc(p, layout(10, 1));
    a.dealloc(r, layout(10, 1));
    a.dealloc(q, layout(10, 1));
    assert_eq!(a.allocate(layout(30, 1)), Ok(0));
}

#[test]
fn add_memory_extends_the_span() {
    let mut a = heap(0x100, 0x10);
    assert_eq!(a.add_memory(0x9999, 0x10), Ok(()));
    assert_eq!(a.total_bytes(), 0x20);
    assert_eq!(a.allocate(layout(0x20, 1)), Ok(0x100));
}

#[test]
fn add_memory_after_full_heap_serves_new_bytes() {
    let mut a = heap(0, 16);
    a.allocate(layout(16, 1)).unwrap();
    a.add_memory(16, 8).unwrap();
    assert_eq!(a.allocate(layout(8, 8)), Ok(16));
}

#[test]
fn zero_sized_dealloc_changes_nothing() {
    let mut a = heap(0, 16);
    a.dealloc(4, layout(0, 1));
    assert_eq!(a.available_bytes(), 16);
    assert_eq!(a.allocate(layout(16, 1)), Ok(0));
}

#[test]
fn zero_size_alloc_keeps_the_range_whole() {
    let mut a = heap(1, 31);
    assert_eq!(a.allocate(layout(0, 8)), Ok(8));
    assert_eq!(a.available_bytes(), 31);
    assert_eq!(a.allocate(layout(31, 1)), Ok(1));
    assert_eq!(a.available_bytes(), 0);
}

#[test]
fn alloc_then_free_restores_whole_range() {
    let mut a = heap(1, 31);
    let p = a.allocate(layout(4, 8)).unwrap();
    assert_eq!(p, 8);
    a.dealloc(p, layout(4, 8));
    assert_eq!(a.allocate(layout(31, 1)), Ok(1));
}
