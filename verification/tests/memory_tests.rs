//! Tests for the memory-segment bookkeeping.

use composer::memory::{MemoryManager, MemorySegment};

#[test]
fn page_aligned_size_rounds_up() {
    assert_eq!(MemorySegment::page_aligned_size(1, 4096), 4096);
    assert_eq!(MemorySegment::page_aligned_size(4096, 4096), 4096);
    assert_eq!(MemorySegment::page_aligned_size(4097, 4096), 8192);
    assert_eq!(MemorySegment::page_aligned_size(0, 4096), 0);
    // always at least the requested size and a multiple of the page size
    for size in [1usize, 100, 5000, 12288, 12289] {
        let aligned = MemorySegment::page_aligned_size(size, 4096);
        assert!(aligned >= size);
        assert_eq!(aligned % 4096, 0);
    }
}

#[test]
fn contains_matches_the_half_open_range() {
    let segment = MemorySegment { address: 0x1000, size: 0x2000, protected: false };
    assert!(!segment.contains(0xFFF));
    assert!(segment.contains(0x1000));
    assert!(segment.contains(0x2FFF));
    assert!(!segment.contains(0x3000));
}

#[test]
fn allocate_records_segments_and_laziness() {
    let mut mm = MemoryManager::new();
    mm.allocate(0x1000, 4096, false);
    mm.allocate(0x10000, 8192, true);
    let segments = mm.segments();
    assert_eq!(segments.len(), 2);
    assert!(!segments[0].protected);
    assert!(segments[1].protected);
    assert!(!mm.is_all_protected());
}

#[test]
fn free_removes_the_containing_segment() {
    let mut mm = MemoryManager::new();
    mm.allocate(0x1000, 4096, false);
    mm.allocate(0x10000, 4096, false);
    let freed = mm.free(0x10010).unwrap();
    assert_eq!(freed.address, 0x10000);
    assert_eq!(mm.segments().len(), 1);
    // unknown pointers are a silent no-op
    assert!(mm.free(0x999999).is_none());
    assert_eq!(mm.segments().len(), 1);
}

#[test]
fn protect_reports_the_range_once() {
    let mut mm = MemoryManager::new();
    mm.allocate(0x1000, 4096, false);
    assert_eq!(mm.protect(0x1008), Some((0x1000, 4096)));
    // already protected: no permission change needed
    assert_eq!(mm.protect(0x1008), None);
    // unknown pointer: no-op
    assert_eq!(mm.protect(0x555555), None);
}

#[test]
fn protect_all_then_unprotect_all_restores_the_arena() {
    let mut mm = MemoryManager::new();
    mm.allocate(0x1000, 4096, false);
    mm.allocate(0x10000, 8192, false);
    let before: Vec<_> = mm.segments().clone();

    let protected = mm.protect_all();
    assert_eq!(protected, vec![(0x1000, 4096), (0x10000, 8192)]);
    assert!(mm.is_all_protected());
    // the sticky flag suppresses a redundant pass
    assert!(mm.protect_all().is_empty());

    let unprotected = mm.unprotect_all();
    assert_eq!(unprotected, vec![(0x1000, 4096), (0x10000, 8192)]);
    assert!(!mm.is_all_protected());
    assert_eq!(mm.segments().clone(), before);
}

#[test]
fn lazy_allocation_starts_protected_and_is_released_wholesale() {
    let mut mm = MemoryManager::new();
    mm.allocate(0x4000, 4096, true);
    mm.allocate(0x8000, 4096, false);
    // only the protected segment needs its access restored
    let released = mm.unprotect_all();
    assert_eq!(released, vec![(0x4000, 4096)]);
    assert!(mm.segments().iter().all(|s| !s.protected));
}
