use kernel_core::collections::{HandleAllocator, HandleAllocatorError};
use kernel_core::memory::AddressSpaceIdPool;
use std::collections::HashSet;

#[test]
fn test_single_thread_allocation_and_freeing() {
    for size in [1u32, 15, 4096] {
        let mut bitset = HandleAllocator::new(size);
        let mut handles = Vec::new();
        for _ in 0..size {
            let handle = bitset.next_handle().expect("Should allocate handle");
            handles.push(handle);
        }
        assert!(bitset.next_handle().is_none());
        for handle in handles {
            bitset.free_handle(handle).expect("Should free handle");
        }
        let handle = bitset.next_handle();
        assert_eq!(handle, Some(1));
    }
}

#[test]
fn test_freeing_unallocated_handle() {
    let mut bitset = HandleAllocator::new(10);
    assert!(bitset.free_handle(1).is_err());
}

#[test]
fn test_handle_out_of_bounds() {
    let mut bitset = HandleAllocator::new(10);
    assert!(bitset.free_handle(10).is_err());
    assert!(bitset.free_handle(100).is_err());
}

#[test]
fn test_all_handles_allocated_once() {
    let bitset_size = 128;
    let mut bitset = HandleAllocator::new(bitset_size);
    let mut allocated = Vec::new();
    for _ in 0..bitset_size {
        let handle = bitset.next_handle().expect("Should allocate handle");
        allocated.push(handle);
    }
    let unique_handles: HashSet<_> = allocated.iter().copied().collect();
    assert_eq!(unique_handles.len(), bitset_size as usize);
    assert!(bitset.next_handle().is_none());
}

#[test]
fn test_random_allocation_and_freeing() {
    let bitset_size = 100;
    let mut bitset = HandleAllocator::new(bitset_size);
    let mut state: u64 = 0x2545_f491_4f6c_dd1d;
    let mut next = move || {
        state ^= state << 13;
        state ^= state >> 7;
        state ^= state << 17;
        state
    };
    let mut allocated = Vec::new();
    for _ in 0..bitset_size {
        if next() % 2 == 0 {
            if let Some(handle) = bitset.next_handle() {
                allocated.push(handle);
            }
        }
    }
    for i in (1..allocated.len()).rev() {
        let j = (next() % (i as u64 + 1)) as usize;
        allocated.swap(i, j);
    }
    for handle in allocated {
        bitset.free_handle(handle).expect("Should free handle");
    }
    for _ in 0..bitset_size {
        assert!(bitset.next_handle().is_some());
    }
}

#[test]
fn handle_allocator_errors_are_told_apart() {
    let mut bitset = HandleAllocator::new(10);
    assert_eq!(bitset.free_handle(0), Err(HandleAllocatorError::OutOfBounds));
    assert_eq!(bitset.free_handle(11), Err(HandleAllocatorError::OutOfBounds));
    assert_eq!(bitset.free_handle(10), Err(HandleAllocatorError::NotAllocated));
    assert_eq!(bitset.next_handle(), Some(1));
    assert_eq!(bitset.free_handle(1), Ok(()));
    assert_eq!(bitset.free_handle(1), Err(HandleAllocatorError::NotAllocated));
}

#[test]
fn handle_allocator_hands_out_the_least_free_handle() {
    let mut bitset = HandleAllocator::new(200);
    for expected in 1..=130u32 {
        assert_eq!(bitset.next_handle(), Some(expected));
    }
    bitset.free_handle(70).unwrap();
    bitset.free_handle(3).unwrap();
    assert_eq!(bitset.next_handle(), Some(3));
    assert_eq!(bitset.next_handle(), Some(70));
    assert_eq!(bitset.next_handle(), Some(131));
    bitset.reset();
    assert_eq!(bitset.next_handle(), Some(1));
    assert_eq!(bitset.max_handle(), 200);
}

#[test]
fn test_basic_allocation() {
    let mut pool = AddressSpaceIdPool::new(10);
    let (asid, gen) = pool.allocate();
    assert!(asid > 0 && asid <= 10);
    assert_eq!(gen, 0);
    let (asid2, gen2) = pool.allocate();
    assert_ne!(asid, asid2);
    assert_eq!(gen2, 0);
}

#[test]
fn test_free_allocation() {
    let mut pool = AddressSpaceIdPool::new(5);
    let (asid, gen) = pool.allocate();
    assert!(pool.free(asid).is_ok());
    let (asid2, gen2) = pool.allocate();
    assert_eq!(gen, gen2);
    assert!(asid2 > 0 && asid2 <= 5);
}

#[test]
fn test_out_of_bounds_free() {
    let mut pool = AddressSpaceIdPool::new(5);
    assert!(pool.free(6).is_err());
    assert!(pool.free(0xFFFF).is_err());
}

#[test]
fn test_free_unallocated() {
    let mut pool = AddressSpaceIdPool::new(5);
    assert!(pool.free(1).is_err());
}

#[test]
fn test_exhaustion_and_reset() {
    let mut pool = AddressSpaceIdPool::new(3);
    let mut allocated = Vec::new();
    for _ in 0..3 {
        let (asid, gen) = pool.allocate();
        assert!((1..=3).contains(&asid));
        assert_eq!(gen, 0);
        allocated.push(asid);
    }
    let (asid_new, gen_new) = pool.allocate();
    assert!((1..=3).contains(&asid_new));
    assert_eq!(gen_new, 1);
}

#[test]
fn test_generation_increments() {
    let mut pool = AddressSpaceIdPool::new(2);
    let (_a1, g1) = pool.allocate();
    let (_a2, g2) = pool.allocate();
    assert_eq!(g1, 0);
    assert_eq!(g2, 0);
    let (a3, g3) = pool.allocate();
    assert_eq!(g3, 1);
    assert!((1..=2).contains(&a3));
    let (a4, g4) = pool.allocate();
    assert_eq!(g4, 1);
    assert!((1..=2).contains(&a4));
    let (a5, g5) = pool.allocate();
    assert_eq!(g5, 2);
    assert!((1..=2).contains(&a5));
}

#[test]
fn test_generation_method() {
    let mut pool = AddressSpaceIdPool::new(3);
    assert_eq!(pool.current_generation(), 0);
    for _ in 0..3 {
        pool.allocate();
    }
    pool.allocate();
    assert_eq!(pool.current_generation(), 1);
}

#[test]
fn test_large_allocations() {
    let mut pool = AddressSpaceIdPool::new(1000);
    let mut allocated = Vec::new();
    for _ in 0..1000 {
        let (asid, gen) = pool.allocate();
        assert!(asid > 0 && asid <= 1000);
        assert_eq!(gen, 0);
        allocated.push(asid);
    }
    let (asid_new, gen_new) = pool.allocate();
    assert!(asid_new > 0 && asid_new <= 1000);
    assert_eq!(gen_new, 1);
    pool.free(asid_new).unwrap();
    let (asid_re, gen_re) = pool.allocate();
    assert!(asid_re > 0 && asid_re <= 1000);
    assert_eq!(gen_re, 1);
}

#[test]
fn asids_are_distinct_within_a_generation() {
    let mut pool = AddressSpaceIdPool::new(300);
    let mut seen = HashSet::new();
    for _ in 0..300 {
        let (asid, generation) = pool.allocate();
        assert_eq!(generation, 0);
        assert!(seen.insert(asid));
    }
    let (asid, generation) = pool.allocate();
    assert_eq!((asid, generation), (1, 1));
    assert_eq!(pool.free(2), Err(HandleAllocatorError::NotAllocated));
    assert_eq!(pool.free(301), Err(HandleAllocatorError::OutOfBounds));
    assert_eq!(pool.free(0), Err(HandleAllocatorError::OutOfBounds));
    let pool = AddressSpaceIdPool::default();
    assert_eq!(pool.current_generation(), 0);
}
