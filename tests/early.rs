use early_alloc::early::{AllocError, EarlyAllocator};

fn fresh(start: usize, size: usize) -> EarlyAllocator<4096> {
    let mut a = EarlyAllocator::<4096>::new();
    a.init(start, size);
    a
}

#[test]
fn new_manages_nothing() {
    let a = EarlyAllocator::<4096>::new();
    assert_eq!(a.total_bytes(), 0);
    assert_eq!(a.used_bytes(), 0);
    assert_eq!(a.available_bytes(), 0);
}

#[test]
fn init_accounting() {
    let a = fresh(0x1000, 0x100);
    assert_eq!(a.total_bytes(), 0x100);
    assert_eq!(a.used_bytes(), 0);
    assert_eq!(a.available_bytes(), 0x100);
}

#[test]
fn two_aligned_allocations() {
    let mut a = fresh(0x1000, 0x100);
    assert_eq!(a.alloc_bytes(8, 8), Ok(0x1000));
    assert_eq!(a.alloc_bytes(8, 8), Ok(0x1008));
    assert_eq!(a.used_bytes(), 16);
    assert_eq!(a.available_bytes(), 0x100 - 16);
}

#[test]
fn allocation_rounds_up_to_alignment() {
    let mut a = fresh(0x1001, 0x100);
    assert_eq!(a.alloc_bytes(4, 16), Ok(0x1010));
    assert_eq!(a.used_bytes(), 0x13);
    assert_eq!(a.alloc_bytes(1, 1), Ok(0x1014));
    assert_eq!(a.alloc_bytes(2, 4), Ok(0x1018));
}

#[test]
fn allocations_do_not_overlap() {
    let mut a = fresh(0x2000, 0x400);
    let reqs = [(3usize, 1usize), (8, 8), (5, 4), (16, 16), (1, 2), (7, 32), (0, 8), (9, 64)];
    let mut blocks: Vec<(usize, usize)> = Vec::new();
    for &(size, align) in reqs.iter() {
        let p = a.alloc_bytes(size, align).unwrap();
        assert_eq!(p % align, 0);
        blocks.push((p, size));
    }
    for i in 0..blocks.len() {
        for j in (i + 1)..blocks.len() {
            let (p, s) = blocks[i];
            let (q, t) = blocks[j];
            assert!(p + s <= q || q + t <= p);
        }
    }
}

#[test]
fn zero_size_allocation() {
    let mut a = fresh(0x1000, 0x100);
    assert_eq!(a.alloc_bytes(0, 8), Ok(0x1000));
    assert_eq!(a.used_bytes(), 0);
    assert_eq!(a.alloc_bytes(1, 1), Ok(0x1000));
    assert_eq!(a.alloc_bytes(0, 16), Ok(0x1010));
    assert_eq!(a.used_bytes(), 0x10);
    let mut full = fresh(0x1000, 0x10);
    assert_eq!(full.alloc_bytes(0x10, 1), Ok(0x1000));
    assert_eq!(full.alloc_bytes(0, 1), Ok(0x1010));
    assert_eq!(full.alloc_bytes(0, 0x20), Err(AllocError::NoMemory));
    assert_eq!(full.used_bytes(), 0x10);
}

#[test]
fn lifo_dealloc_reclaims() {
    let mut a = fresh(0x1000, 0x100);
    let before = a.used_bytes();
    let p = a.alloc_bytes(16, 8).unwrap();
    let q = a.alloc_bytes(24, 8).unwrap();
    assert_eq!(a.used_bytes(), 40);
    a.dealloc(q, 24);
    assert_eq!(a.used_bytes(), 16);
    a.dealloc(p, 16);
    assert_eq!(a.used_bytes(), before);
    assert_eq!(a.alloc_bytes(8, 8), Ok(0x1000));
}

#[test]
fn out_of_order_dealloc_leaks() {
    let mut a = fresh(0x1000, 0x100);
    let p = a.alloc_bytes(16, 8).unwrap();
    let _q = a.alloc_bytes(16, 8).unwrap();
    a.dealloc(p, 16);
    assert_eq!(a.used_bytes(), 32);
    a.dealloc(0x5000, 8);
    assert_eq!(a.used_bytes(), 32);
}

#[test]
fn dealloc_of_zero_size_frees_one_byte() {
    let mut a = fresh(0x1000, 0x100);
    let p = a.alloc_bytes(1, 1).unwrap();
    a.dealloc(p, 0);
    assert_eq!(a.used_bytes(), 0);
}

#[test]
fn alloc_without_room_fails() {
    let mut a = fresh(0x1000, 0x20);
    assert_eq!(a.alloc_bytes(0x21, 1), Err(AllocError::NoMemory));
    assert_eq!(a.alloc_bytes(0x18, 8), Ok(0x1000));
    assert_eq!(a.alloc_bytes(0x8, 16), Err(AllocError::NoMemory));
    assert_eq!(a.used_bytes(), 0x18);
}

#[test]
fn alloc_at_null_is_invalid() {
    let mut a = fresh(0, 0x100);
    assert_eq!(a.alloc_bytes(8, 8), Err(AllocError::InvalidParam));
    assert_eq!(a.used_bytes(), 0);
}

#[test]
fn alloc_fits_detects_overflow() {
    let a = fresh(usize::MAX - 0x10, 0x10);
    assert!(a.alloc_fits(8, 8));
    assert!(!a.alloc_fits(0x20, 1));
    assert!(!a.alloc_fits(0, 1 << 20));
}

#[test]
fn add_memory_inside_overlaps() {
    let mut a = fresh(0x1000, 0x100);
    assert_eq!(a.add_memory(0x1010, 0x10), Err(AllocError::MemoryOverlap));
    assert_eq!(a.add_memory(0x1000, 0x100), Err(AllocError::MemoryOverlap));
    assert_eq!(a.total_bytes(), 0x100);
}

#[test]
fn add_memory_disjoint_is_invalid() {
    let mut a = fresh(0x1000, 0x100);
    assert_eq!(a.add_memory(0x3000, 0x100), Err(AllocError::InvalidParam));
    assert_eq!(a.add_memory(0x100, 0x100), Err(AllocError::InvalidParam));
    assert_eq!(a.add_memory(0x10f0, 0x20), Err(AllocError::InvalidParam));
    assert_eq!(a.add_memory(0x2000, 0), Err(AllocError::InvalidParam));
    assert_eq!(a.total_bytes(), 0x100);
}

#[test]
fn add_memory_after_extends() {
    let mut a = fresh(0x1000, 0x100);
    assert_eq!(a.alloc_bytes(0x10, 1), Ok(0x1000));
    assert_eq!(a.add_memory(0x1100, 0x80), Ok(()));
    assert_eq!(a.total_bytes(), 0x180);
    assert_eq!(a.used_bytes(), 0x10);
    assert_eq!(a.available_bytes(), 0x170);
}

#[test]
fn add_memory_before_extends() {
    let mut a = fresh(0x1000, 0x100);
    assert_eq!(a.add_memory(0xf00, 0x100), Ok(()));
    assert_eq!(a.total_bytes(), 0x200);
    assert_eq!(a.used_bytes(), 0x100);
    assert_eq!(a.available_bytes(), 0x100);
}

#[test]
fn page_allocation_from_the_top() {
    let mut a = fresh(0x10000, 0x10000);
    assert_eq!(a.total_pages(), 16);
    assert_eq!(a.used_pages(), 0);
    assert_eq!(a.alloc_pages(2, 4096), Ok(0x1e000));
    assert_eq!(a.used_pages(), 2);
    assert_eq!(a.available_pages(), 14);
    assert_eq!(a.alloc_pages(1, 0x4000), Ok(0x1c000));
    assert_eq!(a.used_pages(), 4);
    assert_eq!(a.available_bytes(), 0xc000);
    a.dealloc_pages(0x1c000, 1);
    assert_eq!(a.used_pages(), 4);
}

#[test]
fn page_allocation_errors() {
    let mut a = fresh(0x10000, 0x4000);
    assert_eq!(a.alloc_pages(1, 100), Err(AllocError::InvalidParam));
    assert_eq!(a.alloc_pages(1, 0), Err(AllocError::InvalidParam));
    assert_eq!(a.alloc_pages(5, 4096), Err(AllocError::NoMemory));
    assert_eq!(a.alloc_bytes(0x1800, 1), Ok(0x10000));
    assert_eq!(a.alloc_pages(3, 4096), Err(AllocError::NoMemory));
    assert_eq!(a.alloc_pages(2, 4096), Ok(0x12000));
    assert_eq!(a.alloc_pages(usize::MAX, 4096), Err(AllocError::NoMemory));
}

#[test]
fn bytes_and_pages_meet_in_the_middle() {
    let mut a = fresh(0x10000, 0x2000);
    assert_eq!(a.alloc_pages(1, 4096), Ok(0x11000));
    assert_eq!(a.alloc_bytes(0x1000, 8), Ok(0x10000));
    assert_eq!(a.available_bytes(), 0);
    assert_eq!(a.alloc_bytes(1, 1), Err(AllocError::NoMemory));
}
