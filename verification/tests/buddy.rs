use kernel_core::memory::{
    subtract_ranges, BuddyPageAllocator, Error, PageAllocator, PageSize, PhysicalAddress,
};

const BASE: u64 = 0x4000_0000;
const PAGE: u64 = 4096;

type Allocator = BuddyPageAllocator<10>;

/// An allocator over 512 pages, all of them free.
fn whole() -> (Allocator, usize) {
    let mut a = Allocator::new(PageSize::FourKiB, BASE, 512 * PAGE as usize);
    assert!(a.add_memory_region(BASE, 512 * PAGE as usize));
    (a, 512)
}

/// An allocator over 513 pages, where the page in the middle was never added.
fn with_gap() -> (Allocator, usize) {
    let mut a = Allocator::new(PageSize::FourKiB, BASE, 513 * PAGE as usize);
    assert!(a.add_memory_region(BASE, 256 * PAGE as usize));
    assert!(a.add_memory_region(BASE + 257 * PAGE, 256 * PAGE as usize));
    (a, 512)
}

fn setups() -> Vec<(Allocator, usize)> {
    vec![whole(), with_gap()]
}

fn check_allocated(a: &Allocator, pages: PhysicalAddress) {
    assert!(!pages.is_null());
    assert!(pages.is_aligned_to(a.page_size().bytes()));
    assert!(pages.to_addr() >= BASE && pages.to_addr() < BASE + 513 * PAGE);
}

#[test]
fn buddy_page_size_consistency() {
    for (a, _) in setups() {
        let page_size = a.page_size();
        for _ in 0..10 {
            assert_eq!(a.page_size(), page_size);
        }
        assert_eq!(page_size, PageSize::FourKiB);
    }
}

#[test]
fn buddy_allocate_pages_once() {
    for num_pages in [1usize, 2, 3, 7, 8, 16, 128] {
        for (mut a, total) in setups() {
            let pages = a.allocate(num_pages).expect("allocate pages");
            check_allocated(&a, pages);
            assert_eq!(a.total_pages_free(), total - num_pages.next_power_of_two());
            a.free(pages, num_pages).expect("free pages");
            assert_eq!(a.total_pages_free(), total);
        }
    }
}

#[test]
fn buddy_allocate_zero_pages() {
    for (mut a, total) in setups() {
        assert!(matches!(a.allocate(0), Err(Error::InvalidSize)));
        assert_eq!(a.total_pages_free(), total);
    }
}

#[test]
fn buddy_double_free_trivial() {
    for (mut a, total) in setups() {
        let pages = a.allocate(1).expect("allocate a page");
        a.free(pages, 1).expect("free page");
        assert!(matches!(a.free(pages, 1), Err(Error::UnknownPtr)));
        assert_eq!(a.total_pages_free(), total);
    }
}

#[test]
fn buddy_double_free_tricky() {
    for (mut a, total) in setups() {
        let first = a.allocate(2).expect("allocate pages");
        let second = a.allocate(2).expect("allocate pages");
        assert_ne!(first, second);
        a.free(second, 2).expect("free pages");
        a.free(first, 2).expect("free pages");
        assert!(matches!(a.free(second, 2), Err(Error::UnknownPtr)));
        assert_eq!(a.total_pages_free(), total);
    }
}

#[test]
fn buddy_out_of_memory() {
    for (mut a, total) in setups() {
        assert!(matches!(a.allocate(usize::MAX), Err(Error::OutOfMemory)));
        assert!(matches!(a.allocate(1024), Err(Error::OutOfMemory)));
        assert_eq!(a.total_pages_free(), total);
    }
}

#[test]
fn buddy_out_of_memory_slow() {
    for (mut a, total) in setups() {
        let mut blocks = Vec::new();
        loop {
            match a.allocate(1) {
                Ok(p) => blocks.push(p),
                Err(Error::OutOfMemory) => break,
                Err(e) => panic!("unexpected error allocating: {e:?}"),
            }
            assert!(blocks.len() <= total);
        }
        assert_eq!(blocks.len(), total);
        assert_eq!(a.total_pages_free(), 0);
        let mut sorted: Vec<u64> = blocks.iter().map(|p| p.to_addr()).collect();
        sorted.sort_unstable();
        sorted.dedup();
        assert_eq!(sorted.len(), total);
        for p in blocks {
            a.free(p, 1).expect("free page");
        }
        assert_eq!(a.total_pages_free(), total);
    }
}

#[test]
fn buddy_stress_allocation() {
    for (mut a, total) in setups() {
        for _ in 0..64 {
            let pages = a.allocate(8).expect("allocate pages");
            check_allocated(&a, pages);
            a.free(pages, 8).expect("free pages");
        }
        assert_eq!(a.total_pages_free(), total);
    }
}

#[test]
fn buddy_interleaved_alloc_free() {
    for (mut a, total) in setups() {
        let first = a.allocate(2).unwrap();
        let second = a.allocate(3).unwrap();
        let third = a.allocate(1).unwrap();
        assert_eq!(a.total_pages_free(), total - 2 - 4 - 1);
        a.free(second, 3).unwrap();
        a.free(first, 2).unwrap();
        a.free(third, 1).unwrap();
        assert_eq!(a.total_pages_free(), total);
    }
}

#[test]
fn buddy_partial_free_then_allocate() {
    for (mut a, total) in setups() {
        let first = a.allocate(4).unwrap();
        let second = a.allocate(2).unwrap();
        a.free(first, 4).unwrap();
        let third = a.allocate(3).unwrap();
        a.free(second, 2).unwrap();
        a.free(third, 3).unwrap();
        assert_eq!(a.total_pages_free(), total);
    }
}

#[test]
fn buddy_free_in_reverse_order() {
    for (mut a, total) in setups() {
        let first = a.allocate(2).unwrap();
        let second = a.allocate(3).unwrap();
        let third = a.allocate(1).unwrap();
        a.free(third, 1).unwrap();
        a.free(second, 3).unwrap();
        a.free(first, 2).unwrap();
        assert_eq!(a.total_pages_free(), total);
    }
}

#[test]
fn buddy_mixed_small_and_large_allocations() {
    for (mut a, total) in setups() {
        let small = a.allocate(1).unwrap();
        let large = a.allocate(64).unwrap();
        a.free(large, 64).unwrap();
        a.free(small, 1).unwrap();
        assert_eq!(a.total_pages_free(), total);
    }
}

#[test]
fn buddy_allocate_without_freeing_then_free_all() {
    for num_pages in [1usize, 2, 3, 7, 8] {
        for order in 0..3 {
            for (mut a, total) in setups() {
                let mut blocks = Vec::new();
                for _ in 0..32 {
                    let p = a.allocate(num_pages).expect("allocate pages");
                    check_allocated(&a, p);
                    blocks.push(p);
                }
                assert_eq!(
                    a.total_pages_free(),
                    total - 32 * num_pages.next_power_of_two()
                );
                match order {
                    0 => {
                        for p in blocks {
                            a.free(p, num_pages).expect("free pages");
                        }
                    }
                    1 => {
                        for p in blocks.into_iter().rev() {
                            a.free(p, num_pages).expect("free pages");
                        }
                    }
                    _ => {
                        for p in blocks.iter().skip(1).step_by(2) {
                            a.free(*p, num_pages).expect("free pages");
                        }
                        for p in blocks.iter().step_by(2).rev() {
                            a.free(*p, num_pages).expect("free pages");
                        }
                    }
                }
                assert_eq!(a.total_pages_free(), total);
            }
        }
    }
}

#[test]
fn buddy_three_pages_take_a_block_of_four() {
    let (mut a, _) = whole();
    assert_eq!(a.total_pages_free(), 512);
    assert_eq!(a.count_in_free_list(9), 1);
    let pages = a.allocate(3).unwrap();
    assert_eq!(pages, PhysicalAddress::new(BASE));
    assert!(pages.is_aligned_to(4 * PAGE as usize));
    assert_eq!(a.total_pages_free(), 512 - 4);
    assert_eq!(a.count_in_free_list(9), 0);
    for order in 2..9 {
        assert_eq!(a.count_in_free_list(order), 1);
        assert!(a.block_in_free_list(order, BASE + (PAGE << order)));
    }
    assert_eq!(a.count_in_free_list(0), 0);
    assert_eq!(a.count_in_free_list(1), 0);
    a.free(pages, 3).unwrap();
    assert_eq!(a.total_pages_free(), 512);
    assert_eq!(a.count_in_free_list(9), 1);
    assert!(a.block_in_free_list(9, BASE));
    for order in 0..9 {
        assert_eq!(a.count_in_free_list(order), 0);
    }
}

#[test]
fn buddy_free_refuses_what_was_never_allocated() {
    let (mut a, total) = whole();
    assert!(matches!(a.free(PhysicalAddress::null(), 1), Err(Error::UnknownPtr)));
    assert!(matches!(
        a.free(PhysicalAddress::new(BASE - PAGE), 1),
        Err(Error::UnknownPtr)
    ));
    assert!(matches!(
        a.free(PhysicalAddress::new(BASE + 512 * PAGE), 1),
        Err(Error::UnknownPtr)
    ));
    assert!(matches!(
        a.free(PhysicalAddress::new(BASE + 4 * PAGE), 1),
        Err(Error::UnknownPtr)
    ));
    let pages = a.allocate(4).unwrap();
    assert!(matches!(a.free(pages, 0), Err(Error::InvalidSize)));
    assert!(matches!(a.free(pages, 1 << 20), Err(Error::InvalidSize)));
    assert!(matches!(
        a.free(PhysicalAddress::new(pages.to_addr() + 1), 1),
        Err(Error::UnknownPtr)
    ));
    assert!(matches!(a.free(pages, 8), Err(Error::UnknownPtr)));
    assert_eq!(a.total_pages_free(), total - 4);
    a.free(pages, 4).unwrap();
    assert_eq!(a.total_pages_free(), total);
}

#[test]
fn buddy_regions_are_cut_to_whole_pages() {
    let mut a = BuddyPageAllocator::<4>::new(PageSize::SixteenKiB, 0x8000, 64 * 0x4000);
    assert_eq!(a.page_size(), PageSize::SixteenKiB);
    assert!(!a.add_memory_region(0x8001, 0x4000));
    assert!(!a.add_memory_region(0x8000, 0x3fff));
    assert_eq!(a.total_pages_free(), 0);
    assert!(matches!(a.allocate(1), Err(Error::OutOfMemory)));
    assert!(a.add_memory_region(0x8001, 0x4000 * 3));
    assert_eq!(a.total_pages_free(), 2);
    assert!(a.block_in_free_list(1, 0xc000));
    assert!(a.add_memory_region(0x8000 + 16 * 0x4000, 0x4000 * 19 + 5));
    assert_eq!(a.total_pages_free(), 2 + 19);
    assert_eq!(a.count_in_free_list(3), 2);
    assert_eq!(a.count_in_free_list(1), 2);
    assert_eq!(a.count_in_free_list(0), 1);
    assert!(matches!(a.allocate(9), Err(Error::OutOfMemory)));
    let block = a.allocate(8).unwrap();
    assert_eq!(a.total_pages_free(), 2 + 19 - 8);
    a.free(block, 8).unwrap();
    assert_eq!(a.total_pages_free(), 2 + 19);
}

#[test]
fn buddy_real_world_4gib() {
    let page_size = PageSize::FourKiB;
    let four_gb: usize = 0x1_0000_0000;
    let memory: u64 = 0x4000_0000;
    let reserved_regions = vec![(memory + 0x100_0000, 0x41bb90usize), (memory + 0xbeef_c000, 0x2000)];
    let mut allocator = BuddyPageAllocator::<16>::new(page_size, memory, four_gb);
    let mut expected_pages = 0;
    for (start, len) in subtract_ranges((memory, four_gb), reserved_regions).collect() {
        assert!(
            allocator.add_memory_region(start, len),
            "add memory region {start:x?} : {len}"
        );
        let end = start + len as u64;
        let first = start.next_multiple_of(PAGE);
        expected_pages += ((end - first) / PAGE) as usize;
    }
    assert_eq!(allocator.total_pages_free(), expected_pages);
    assert_eq!(expected_pages, 0x10_0000 - 0x41c - 2);
}

#[test]
fn buddy_blocks_lie_at_multiples_of_their_size() {
    let (mut a, total) = whole();
    let mut blocks = Vec::new();
    for num_pages in [3usize, 1, 16, 5, 2, 100, 7, 1, 64] {
        let pages = a.allocate(num_pages).unwrap();
        let size = PAGE * num_pages.next_power_of_two() as u64;
        assert_eq!(pages.to_addr() % size, 0, "{num_pages} pages at {pages:?}");
        blocks.push((pages, num_pages));
    }
    for (pages, num_pages) in blocks.into_iter().rev() {
        a.free(pages, num_pages).unwrap();
    }
    assert_eq!(a.total_pages_free(), total);
    assert_eq!(a.count_in_free_list(9), 1);
}

#[test]
fn buddy_region_behind_a_gap_is_not_aligned() {
    let (mut a, _) = with_gap();
    let first = a.allocate(256).unwrap();
    let second = a.allocate(256).unwrap();
    let mut addresses = vec![first.to_addr(), second.to_addr()];
    addresses.sort_unstable();
    assert_eq!(addresses, vec![BASE, BASE + 257 * PAGE]);
    assert_ne!((BASE + 257 * PAGE) % (256 * PAGE), 0);
    assert!(matches!(a.allocate(1), Err(Error::OutOfMemory)));
}

#[test]
fn buddy_adds_no_memory_twice() {
    let (mut a, total) = whole();
    assert!(!a.add_memory_region(BASE, PAGE as usize));
    assert!(!a.add_memory_region(BASE + 100 * PAGE, 8 * PAGE as usize));
    assert!(!a.add_memory_region(BASE + 511 * PAGE + 1, PAGE as usize - 1));
    assert_eq!(a.total_pages_free(), total);
    let block = a.allocate(8).unwrap();
    assert_eq!(a.total_pages_free(), total - 8);
    assert!(a.add_memory_region(block.to_addr() + 1, 8 * PAGE as usize - 1));
    assert_eq!(a.total_pages_free(), total - 1);
    assert!(!a.add_memory_region(block.to_addr() + PAGE, PAGE as usize));
    assert!(a.add_memory_region(block.to_addr(), PAGE as usize));
    assert_eq!(a.total_pages_free(), total);
}
