use kernel_core::memory::heap::{align_up, header_padding_max, Layout};
use kernel_core::memory::{
    BuddyPageAllocator, Error as MemoryError, HeapAllocator, PageAllocator, PageSize,
    PhysicalAddress,
};

/// A page allocator with a page limit, which hands out addresses one after the other.
struct MockPageAllocator {
    page_size: PageSize,
    max_pages: usize,
    next: u64,
    total_allocated: usize,
}

impl MockPageAllocator {
    fn new(page_size: PageSize, max_pages: usize) -> Self {
        MockPageAllocator {
            page_size,
            max_pages,
            next: 0x7000_0000,
            total_allocated: 0,
        }
    }
}

impl PageAllocator for MockPageAllocator {
    fn page_size(&self) -> PageSize {
        self.page_size
    }

    fn allocate(&mut self, num_pages: usize) -> Result<PhysicalAddress, MemoryError> {
        if num_pages == 0 {
            return Err(MemoryError::InvalidSize);
        }
        if self.total_allocated + num_pages > self.max_pages {
            return Err(MemoryError::OutOfMemory);
        }
        let address = self.next;
        self.next += (num_pages * self.page_size.bytes()) as u64;
        self.total_allocated += num_pages;
        Ok(PhysicalAddress::new(address))
    }

    fn free(&mut self, pages: PhysicalAddress, _num_pages: usize) -> Result<(), MemoryError> {
        if pages.is_null() {
            return Err(MemoryError::UnknownPtr);
        }
        panic!("the heap gives no pages back");
    }
}

fn create_page_allocator() -> MockPageAllocator {
    MockPageAllocator::new(PageSize::FourKiB, 512)
}

fn allocate_batch(
    a: &mut HeapAllocator,
    pa: &mut MockPageAllocator,
    layout: Layout,
    size: usize,
) -> Vec<u64> {
    (0..size)
        .map(|_| {
            let p = a.allocate(pa, layout).expect("allocation");
            assert_ne!(p, 0);
            assert_eq!(
                p % layout.align() as u64,
                0,
                "{p:x?} not aligned to {}",
                layout.align()
            );
            p
        })
        .collect()
}

fn dealloc(a: &mut HeapAllocator, ptr: u64, layout: Layout) {
    assert!(a.try_dealloc(ptr, layout), "{ptr:x} was not allocated");
}

fn free_batch(a: &mut HeapAllocator, layout: Layout, batch: Vec<u64>, order: usize) {
    match order {
        0 => {
            for ptr in batch {
                dealloc(a, ptr, layout);
            }
        }
        1 => {
            for ptr in batch.into_iter().rev() {
                dealloc(a, ptr, layout);
            }
        }
        _ => {
            for ptr in batch.iter().skip(1).step_by(2) {
                dealloc(a, *ptr, layout);
            }
            for ptr in batch.iter().step_by(2).rev() {
                dealloc(a, *ptr, layout);
            }
        }
    }
}

fn check_disjoint(batch: &[u64], size: usize) {
    let mut sorted = batch.to_vec();
    sorted.sort_unstable();
    for pair in sorted.windows(2) {
        assert!(pair[0] + size as u64 <= pair[1], "payloads overlap");
    }
}

#[test]
fn seq_batch() {
    for order in 0..3 {
        for size in [8usize, 27, 64, 67, 1111, 4096] {
            for alignment in [1usize, 2, 4, 8, 16, 128, 256, 1024] {
                let mut pa = create_page_allocator();
                let mut a = HeapAllocator::new();
                let layout = Layout::from_size_align(size, alignment).expect("create layout");
                let batch = allocate_batch(&mut a, &mut pa, layout, 128);
                check_disjoint(&batch, size);
                free_batch(&mut a, layout, batch, order);
                let pages = pa.total_allocated;
                let again = allocate_batch(&mut a, &mut pa, layout, 128);
                if alignment <= 8 {
                    assert_eq!(pa.total_allocated, pages, "freed blocks are used again");
                }
                free_batch(&mut a, layout, again, order);
            }
        }
    }
}

#[test]
fn seq_batch_with_interlude() {
    for order in 0..3 {
        for size in [8usize, 27, 64] {
            for alignment in [1usize, 8, 256] {
                let mut pa = create_page_allocator();
                let mut a = HeapAllocator::new();
                let layout = Layout::from_size_align(size, alignment).expect("create layout");
                let first_half = allocate_batch(&mut a, &mut pa, layout, 64);
                let interlude = allocate_batch(&mut a, &mut pa, layout, 64);
                free_batch(&mut a, layout, interlude, order);
                let second_half = allocate_batch(&mut a, &mut pa, layout, 64);
                free_batch(&mut a, layout, first_half, order);
                free_batch(&mut a, layout, second_half, order);
            }
        }
    }
}

#[test]
fn small_payloads_freed_interleaved() {
    let mut pa = create_page_allocator();
    let mut a = HeapAllocator::new();
    let layout = Layout::from_size_align(27, 8).unwrap();
    let batch = allocate_batch(&mut a, &mut pa, layout, 128);
    check_disjoint(&batch, 27);
    assert_eq!(pa.total_allocated, 4);
    free_batch(&mut a, layout, batch.clone(), 2);
    for ptr in &batch {
        assert!(!a.can_dealloc(*ptr, layout));
    }
    let again = allocate_batch(&mut a, &mut pa, layout, 128);
    assert_eq!(pa.total_allocated, 4);
    let mut first = batch;
    let mut second = again;
    first.sort_unstable();
    second.sort_unstable();
    assert_eq!(first, second);
}

#[test]
#[should_panic]
fn double_free() {
    let mut pa = create_page_allocator();
    let mut a = HeapAllocator::new();
    let layout = Layout::from_size_align(1024, 8).unwrap();
    let p = a.allocate(&mut pa, layout).unwrap_or(0);
    let _ = a.try_dealloc(p, layout);
    if p != 0 {
        dealloc(&mut a, p, layout);
    }
}

#[test]
#[should_panic]
fn double_free_tricky() {
    let mut pa = create_page_allocator();
    let mut a = HeapAllocator::new();
    let layout = Layout::from_size_align(1024, 8).unwrap();
    let p = a.allocate(&mut pa, layout).unwrap_or(0);
    let second = a.allocate(&mut pa, layout).unwrap_or(0);
    let _ = a.try_dealloc(p, layout);
    let _ = a.try_dealloc(second, layout);
    if p != 0 && second != 0 {
        dealloc(&mut a, p, layout);
    }
}

#[test]
fn second_free_is_refused() {
    let mut pa = create_page_allocator();
    let mut a = HeapAllocator::new();
    let layout = Layout::from_size_align(1024, 8).unwrap();
    let p = a.allocate(&mut pa, layout).unwrap();
    let second = a.allocate(&mut pa, layout).unwrap();
    assert_ne!(p, second);
    assert!(a.can_dealloc(p, layout));
    assert!(a.try_dealloc(p, layout));
    assert!(a.try_dealloc(second, layout));
    assert!(!a.can_dealloc(p, layout));
    assert!(!a.try_dealloc(p, layout));
    assert!(!a.try_dealloc(second, layout));
    assert!(!a.try_dealloc(p + 8, layout));
    assert!(a.try_dealloc(0, layout));
    let third = a.allocate(&mut pa, layout).unwrap();
    assert!(!a.try_dealloc(third, Layout::from_size_align(16, 8).unwrap()));
    assert!(a.try_dealloc(third, layout));
}

#[test]
fn impossibly_large_allocation() {
    let mut pa = create_page_allocator();
    let mut a = HeapAllocator::new();
    let layout = Layout::from_size_align(isize::MAX as usize, 1).unwrap();
    let p = a.allocate(&mut pa, layout);
    assert!(p.is_none());
    assert_eq!(pa.total_allocated, 0);
}

#[test]
fn heap_without_pages_returns_nothing() {
    let mut pa = MockPageAllocator::new(PageSize::FourKiB, 3);
    let mut a = HeapAllocator::new();
    let layout = Layout::from_size_align(64, 8).unwrap();
    assert_eq!(a.allocate(&mut pa, layout), None);
    let mut pa = MockPageAllocator::new(PageSize::FourKiB, 4);
    let first = a.allocate(&mut pa, layout).unwrap();
    assert_eq!(first, 0x7000_0000 + 16);
    let big = Layout::from_size_align(5 * 4096, 8).unwrap();
    assert_eq!(a.allocate(&mut pa, big), None);
    let second = a.allocate(&mut pa, layout).unwrap();
    assert_eq!(second, first + 64 + 16);
}

#[test]
fn uninitialized_heap_returns_nothing_until_init() {
    let mut pa = create_page_allocator();
    let mut a = HeapAllocator::new_uninit();
    let layout = Layout::from_size_align(64, 8).unwrap();
    assert_eq!(a.allocate(&mut pa, layout), None);
    assert_eq!(pa.total_allocated, 0);
    a.init();
    assert!(a.allocate(&mut pa, layout).is_some());
    assert_eq!(pa.total_allocated, 4);
}

#[test]
fn heap_takes_its_pages_from_a_buddy_allocator() {
    let mut pa = BuddyPageAllocator::<10>::new(PageSize::FourKiB, 0x4000_0000, 512 * 4096);
    assert!(pa.add_memory_region(0x4000_0000, 512 * 4096));
    let mut a = HeapAllocator::new();
    let layout = Layout::from_size_align(3 * 4096, 8).unwrap();
    let p = a.allocate(&mut pa, layout).unwrap();
    assert_eq!(p, 0x4000_0000 + 16);
    assert_eq!(pa.total_pages_free(), 512 - 4);
    assert!(a.try_dealloc(p, layout));
    assert_eq!(pa.total_pages_free(), 512 - 4);
    assert_eq!(a.allocate(&mut pa, layout), Some(p));
    let aligned = Layout::from_size_align(3 * 4096, 4096).unwrap();
    let q = a.allocate(&mut pa, aligned).unwrap();
    assert_eq!(q % 4096, 0);
    assert_eq!(q, 0x4000_0000 + 9 * 4096);
    assert_eq!(pa.total_pages_free(), 512 - 4 - 8);
}

#[test]
fn layouts_and_padding() {
    assert!(Layout::from_size_align(10, 0).is_none());
    assert!(Layout::from_size_align(10, 3).is_none());
    assert!(Layout::from_size_align(10, 0x8000).is_none());
    let layout = Layout::from_size_align(10, 0x4000).unwrap();
    assert_eq!(layout.size(), 10);
    assert_eq!(layout.align(), 0x4000);
    assert_eq!(header_padding_max(layout), 0x4000 - 8);
    assert_eq!(header_padding_max(Layout::from_size_align(10, 8).unwrap()), 0);
    assert_eq!(header_padding_max(Layout::from_size_align(10, 1).unwrap()), 0);
    assert_eq!(header_padding_max(Layout::from_size_align(10, 16).unwrap()), 8);
    assert_eq!(align_up(0x1001, 0x1000), 0x2000);
    assert_eq!(align_up(0x1000, 0x1000), 0x1000);
    assert_eq!(align_up(17, 8), 24);
    assert_eq!(align_up(0, 8), 0);
}

#[test]
fn pages_become_a_block_of_the_heap() {
    let mut a = HeapAllocator::new();
    let layout = Layout::from_size_align(100, 8).unwrap();
    let page_size = PageSize::FourKiB;
    assert_eq!(a.place_in_pages(Err(MemoryError::OutOfMemory), page_size, layout), None);
    let first = a.place_in_pages(Ok(PhysicalAddress::new(0x10_0000)), page_size, layout);
    assert_eq!(first, Some(0x10_0010));
    assert_eq!(
        a.place_in_pages(Ok(PhysicalAddress::new(0x10_3000)), page_size, layout),
        None
    );
    assert_eq!(
        a.place_in_pages(Ok(PhysicalAddress::new(0x7fff_ffff_ffff_c000)), page_size, layout),
        None
    );
    let aligned = Layout::from_size_align(0x5000, 0x1000).unwrap();
    assert_eq!(
        a.place_in_pages(Ok(PhysicalAddress::new(0x20_0000)), page_size, aligned),
        Some(0x20_1000)
    );
    let mut pa = MockPageAllocator::new(page_size, 0);
    assert_eq!(a.allocate(&mut pa, layout), Some(0x20_6010));
    assert_eq!(pa.total_allocated, 0);
    assert!(a.try_dealloc(0x20_1000, aligned));
    assert!(a.try_dealloc(0x10_0010, layout));
}

#[test]
fn the_heap_asks_for_pages_only_where_no_block_fits() {
    let mut pa = BuddyPageAllocator::<10>::new(PageSize::FourKiB, 0x4000_0000, 512 * 4096);
    assert!(pa.add_memory_region(0x4000_0000, 512 * 4096));
    let mut a = HeapAllocator::new_uninit();
    let layout = Layout::from_size_align(64, 8).unwrap();
    assert_eq!(a.allocate(&mut pa, layout), None);
    assert_eq!(pa.total_pages_free(), 512);
    a.init();
    let first = a.allocate(&mut pa, layout).unwrap();
    let free = pa.total_pages_free();
    assert!(free < 512);
    let second = a.allocate(&mut pa, layout).unwrap();
    assert_ne!(first, second);
    assert_eq!(pa.total_pages_free(), free);
    let too_large = Layout::from_size_align(isize::MAX as usize, 1).unwrap();
    assert_eq!(a.allocate(&mut pa, too_large), None);
    assert_eq!(pa.total_pages_free(), free);
}
