//! Memory management algorithms and policies.
//!
//! Addresses are 64-bit integers wrapped in distinct types, so that a physical
//! address cannot be handed to code that expects a virtual one:
//!
//! | Type | Meaning |
//! |------|---------|
//! | [`VirtualPointer<T>`], [`VirtualPointerMut<T>`] | An address in some virtual address space. |
//! | [`VirtualAddress`] | A virtual address with no pointee type. |
//! | [`PhysicalPointer<T>`] | An address in the untranslated physical address space. |
//! | [`PhysicalAddress`] | A physical address with no pointee type. |
use core::marker::PhantomData;
use vstd::layout::size_of;
use vstd::prelude::*;

pub mod asid_pool;
pub mod buddy;
pub mod buddy_alignment;
pub mod heap;
pub mod page_table;
pub mod subtract_ranges;

pub use asid_pool::{AddressSpaceId, AddressSpaceIdPool};
pub use buddy::BuddyPageAllocator;
pub use heap::HeapAllocator;
pub use page_table::PageTables;
pub use subtract_ranges::{subtract_ranges, SubtractRanges};

verus! {

/// The tag that the top sixteen bits of a kernel-space virtual address carry.
pub const KERNEL_TAG: u64 = 0xffff_0000_0000_0000;

/// The bits of an address that are not part of the tag.
pub const ADDRESS_MASK: u64 = 0x0000_ffff_ffff_ffff;

/// A 48-bit physical address pointer that is not part of a virtual address space.
#[derive(Debug, PartialEq, Eq, PartialOrd, Ord)]
pub struct PhysicalPointer<T> {
    addr: u64,
    kind: PhantomData<T>,
}

/// A physical 48-bit address that does not point at any particular type of value.
pub type PhysicalAddress = PhysicalPointer<()>;

impl<T> Clone for PhysicalPointer<T> {
    fn clone(&self) -> (r: Self)
        ensures
            r == *self,
    {
        PhysicalPointer { addr: self.addr, kind: PhantomData }
    }
}

impl<T> Copy for PhysicalPointer<T> {

}

impl<T> PhysicalPointer<T> {
    /// The address as an integer.
    pub closed spec fn addr(self) -> u64 {
        self.addr
    }

    /// Two pointers of one type with the same address are the same pointer.
    pub proof fn lemma_addr_injective(self, other: Self)
        requires
            self.addr() == other.addr(),
        ensures
            self == other,
    {
    }

    /// Creates a physical pointer from an untagged address.
    pub fn new(value: u64) -> (p: Self)
        requires
            value < KERNEL_TAG,
        ensures
            p.addr() == value,
    {
        PhysicalPointer { addr: value, kind: PhantomData }
    }

    /// Creates a physical pointer from an address, or `None` if the address carries the kernel tag.
    pub fn try_new(value: u64) -> (p: Option<Self>)
        ensures
            value < KERNEL_TAG ==> p is Some && p->0.addr() == value,
            value >= KERNEL_TAG ==> p is None,
    {
        if value < KERNEL_TAG {
            Some(PhysicalPointer { addr: value, kind: PhantomData })
        } else {
            None
        }
    }

    /// The address this pointer holds.
    pub fn to_addr(self) -> (a: u64)
        ensures
            a == self.addr(),
    {
        self.addr
    }

    /// Offset this pointer forward by `count` number of `T`s.
    pub fn add(self, count: usize) -> (p: Self)
        requires
            self.addr() + count * size_of::<T>() <= u64::MAX,
        ensures
            p.addr() == self.addr() + count * size_of::<T>(),
    {
        let size = core::mem::size_of::<T>();
        assert(0 <= count * size) by (nonlinear_arith);
        PhysicalPointer { addr: self.addr + (count as u64) * (size as u64), kind: PhantomData }
    }

    /// Offset this pointer forward by `count` bytes.
    pub fn byte_add(self, count: usize) -> (p: Self)
        requires
            self.addr() + count <= u64::MAX,
        ensures
            p.addr() == self.addr() + count,
    {
        PhysicalPointer { addr: self.addr + count as u64, kind: PhantomData }
    }

    /// Cast this pointer from type `T` to type `U`.
    pub fn cast<U>(self) -> (p: PhysicalPointer<U>)
        ensures
            p.addr() == self.addr(),
    {
        PhysicalPointer { addr: self.addr, kind: PhantomData }
    }

    /// A null physical pointer (address 0).
    pub fn null() -> (p: Self)
        ensures
            p.addr() == 0,
    {
        PhysicalPointer { addr: 0, kind: PhantomData }
    }

    /// Check to see if this pointer is null.
    pub fn is_null(self) -> (b: bool)
        ensures
            b == (self.addr() == 0),
    {
        self.addr == 0
    }

    /// Returns whether the pointer is aligned to `alignment`.
    pub fn is_aligned_to(self, alignment: usize) -> (b: bool)
        requires
            alignment > 0,
        ensures
            b == (self.addr() % (alignment as u64) == 0),
    {
        self.addr % (alignment as u64) == 0
    }

    /// The kernel-space virtual address through which this physical address is reached.
    pub fn to_kernel_virtual(self) -> (v: VirtualPointerMut<T>)
        ensures
            v.addr() == self.addr() | KERNEL_TAG,
    {
        VirtualPointerMut { addr: self.addr | KERNEL_TAG, kind: PhantomData }
    }
}

/// The error returned by conversions of a pointer that is not in the kernel address space.
#[derive(Debug, Clone, Copy, PartialEq, Eq)]
pub struct NotInKernelAddressSpaceError;

/// A 48-bit virtual address space pointer to a `T` in some address space.
#[derive(Debug, PartialEq, Eq, PartialOrd, Ord)]
pub struct VirtualPointer<T> {
    addr: u64,
    kind: PhantomData<T>,
}

/// A 48-bit virtual address space pointer to a mutable `T` in some address space.
#[derive(Debug, PartialEq, Eq, PartialOrd, Ord)]
pub struct VirtualPointerMut<T> {
    addr: u64,
    kind: PhantomData<T>,
}

/// A virtual 48-bit address that does not point at any particular type of value.
pub type VirtualAddress = VirtualPointerMut<()>;

impl<T> Clone for VirtualPointer<T> {
    fn clone(&self) -> (r: Self)
        ensures
            r == *self,
    {
        VirtualPointer { addr: self.addr, kind: PhantomData }
    }
}

impl<T> Copy for VirtualPointer<T> {

}

impl<T> Clone for VirtualPointerMut<T> {
    fn clone(&self) -> (r: Self)
        ensures
            r == *self,
    {
        VirtualPointerMut { addr: self.addr, kind: PhantomData }
    }
}

impl<T> Copy for VirtualPointerMut<T> {

}

/// Whether an address carries the kernel tag (its top sixteen bits are all ones).
pub open spec fn has_kernel_tag(addr: u64) -> bool {
    addr & KERNEL_TAG == KERNEL_TAG
}

impl<T> VirtualPointer<T> {
    /// The address as an integer.
    pub closed spec fn addr(self) -> u64 {
        self.addr
    }

    /// Creates a virtual pointer from an address.
    pub fn new(value: u64) -> (p: Self)
        ensures
            p.addr() == value,
    {
        VirtualPointer { addr: value, kind: PhantomData }
    }

    /// The address this pointer holds.
    pub fn to_addr(self) -> (a: u64)
        ensures
            a == self.addr(),
    {
        self.addr
    }

    /// Returns true if this pointer is in the kernel address space.
    pub fn is_in_kernel_space(&self) -> (b: bool)
        ensures
            b == has_kernel_tag(self.addr()),
    {
        self.addr & KERNEL_TAG == KERNEL_TAG
    }

    /// Offset this pointer forward by `count` number of `T`s.
    pub fn add(self, count: usize) -> (p: Self)
        requires
            self.addr() + count * size_of::<T>() <= u64::MAX,
        ensures
            p.addr() == self.addr() + count * size_of::<T>(),
    {
        let size = core::mem::size_of::<T>();
        assert(0 <= count * size) by (nonlinear_arith);
        VirtualPointer { addr: self.addr + (count as u64) * (size as u64), kind: PhantomData }
    }

    /// Offset this pointer forward by `count` bytes.
    pub fn byte_add(self, count: usize) -> (p: Self)
        requires
            self.addr() + count <= u64::MAX,
        ensures
            p.addr() == self.addr() + count,
    {
        VirtualPointer { addr: self.addr + count as u64, kind: PhantomData }
    }

    /// Cast this pointer from type `T` to type `U`.
    pub fn cast<U>(self) -> (p: VirtualPointer<U>)
        ensures
            p.addr() == self.addr(),
    {
        VirtualPointer { addr: self.addr, kind: PhantomData }
    }

    /// Returns whether the pointer is aligned to `alignment`.
    pub fn is_aligned_to(self, alignment: usize) -> (b: bool)
        requires
            alignment > 0,
        ensures
            b == (self.addr() % (alignment as u64) == 0),
    {
        self.addr % (alignment as u64) == 0
    }

    /// A null virtual pointer.
    pub fn null() -> (p: Self)
        ensures
            p.addr() == 0,
    {
        VirtualPointer { addr: 0, kind: PhantomData }
    }

    /// The physical address behind a kernel-space pointer: the address without its tag.
    /// Fails for a pointer outside the kernel address space.
    pub fn to_physical(self) -> (r: Result<PhysicalPointer<T>, NotInKernelAddressSpaceError>)
        ensures
            has_kernel_tag(self.addr()) ==> r is Ok && r->Ok_0.addr() == self.addr() & ADDRESS_MASK,
            !has_kernel_tag(self.addr()) ==> r is Err,
    {
        if self.addr & KERNEL_TAG == KERNEL_TAG {
            Ok(PhysicalPointer { addr: self.addr & ADDRESS_MASK, kind: PhantomData })
        } else {
            Err(NotInKernelAddressSpaceError)
        }
    }
}

impl<T> VirtualPointerMut<T> {
    /// The address as an integer.
    pub closed spec fn addr(self) -> u64 {
        self.addr
    }

    /// Two pointers of one type with the same address are the same pointer.
    pub proof fn lemma_addr_injective(self, other: Self)
        requires
            self.addr() == other.addr(),
        ensures
            self == other,
    {
    }

    /// Creates a virtual pointer from an address.
    pub fn new(value: u64) -> (p: Self)
        ensures
            p.addr() == value,
    {
        VirtualPointerMut { addr: value, kind: PhantomData }
    }

    /// The address this pointer holds.
    pub fn to_addr(self) -> (a: u64)
        ensures
            a == self.addr(),
    {
        self.addr
    }

    /// Returns true if this pointer is in the kernel address space.
    pub fn is_in_kernel_space(&self) -> (b: bool)
        ensures
            b == has_kernel_tag(self.addr()),
    {
        self.addr & KERNEL_TAG == KERNEL_TAG
    }

    /// Offset this pointer forward by `count` number of `T`s.
    pub fn add(self, count: usize) -> (p: Self)
        requires
            self.addr() + count * size_of::<T>() <= u64::MAX,
        ensures
            p.addr() == self.addr() + count * size_of::<T>(),
    {
        let size = core::mem::size_of::<T>();
        assert(0 <= count * size) by (nonlinear_arith);
        VirtualPointerMut { addr: self.addr + (count as u64) * (size as u64), kind: PhantomData }
    }

    /// Offset this pointer forward by `count` bytes.
    pub fn byte_add(self, count: usize) -> (p: Self)
        requires
            self.addr() + count <= u64::MAX,
        ensures
            p.addr() == self.addr() + count,
    {
        VirtualPointerMut { addr: self.addr + count as u64, kind: PhantomData }
    }

    /// Cast this pointer from type `T` to type `U`.
    pub fn cast<U>(self) -> (p: VirtualPointerMut<U>)
        ensures
            p.addr() == self.addr(),
    {
        VirtualPointerMut { addr: self.addr, kind: PhantomData }
    }

    /// Returns whether the pointer is aligned to `alignment`.
    pub fn is_aligned_to(self, alignment: usize) -> (b: bool)
        requires
            alignment > 0,
        ensures
            b == (self.addr() % (alignment as u64) == 0),
    {
        self.addr % (alignment as u64) == 0
    }

    /// A null virtual pointer.
    pub fn null() -> (p: Self)
        ensures
            p.addr() == 0,
    {
        VirtualPointerMut { addr: 0, kind: PhantomData }
    }

    /// The physical address behind a kernel-space pointer: the address without its tag.
    /// Fails for a pointer outside the kernel address space.
    pub fn to_physical(self) -> (r: Result<PhysicalPointer<T>, NotInKernelAddressSpaceError>)
        ensures
            has_kernel_tag(self.addr()) ==> r is Ok && r->Ok_0.addr() == self.addr() & ADDRESS_MASK,
            !has_kernel_tag(self.addr()) ==> r is Err,
    {
        if self.addr & KERNEL_TAG == KERNEL_TAG {
            Ok(PhysicalPointer { addr: self.addr & ADDRESS_MASK, kind: PhantomData })
        } else {
            Err(NotInKernelAddressSpaceError)
        }
    }
}

/// Errors that arise due to memory related operations.
#[derive(Debug, Clone, Copy, PartialEq, Eq, Structural)]
pub enum Error {
    /// The system has run out of free memory.
    OutOfMemory,
    /// A size was provided that is not valid (i.e. is zero, or is too large).
    InvalidSize,
    /// A pointer was provided that is not known to the allocator.
    UnknownPtr,
}

/// The size of a single memory page.
///
/// There are only a fixed number of supported values because the hardware only supports a few
/// configurations.
#[derive(Debug, Clone, Copy, PartialEq, Eq, Structural)]
pub enum PageSize {
    /// A page is 4 kibibytes (2^12 bytes).
    FourKiB,
    /// A page is 16 kibibytes (2^14 bytes).
    SixteenKiB,
}

impl PageSize {
    /// The number of bytes in a page of this size.
    pub open spec fn spec_bytes(self) -> usize {
        match self {
            PageSize::FourKiB => 0x1000,
            PageSize::SixteenKiB => 0x4000,
        }
    }

    /// The number of bytes in a page of this size.
    #[verifier::when_used_as_spec(spec_bytes)]
    pub fn bytes(self) -> (n: usize)
        ensures
            n == self.spec_bytes(),
    {
        match self {
            PageSize::FourKiB => 0x1000,
            PageSize::SixteenKiB => 0x4000,
        }
    }

    /// The page size that is `value` bytes long.
    pub fn from_bytes(value: usize) -> (s: Self)
        requires
            value == 0x1000 || value == 0x4000,
        ensures
            s.spec_bytes() == value,
    {
        if value == 0x1000 {
            PageSize::FourKiB
        } else {
            PageSize::SixteenKiB
        }
    }

    /// The page size that is `value` bytes long, if there is one.
    pub fn try_from_bytes(value: usize) -> (s: Option<Self>)
        ensures
            s is Some <==> (value == 0x1000 || value == 0x4000),
            s is Some ==> s->0.spec_bytes() == value,
    {
        if value == 0x1000 {
            Some(PageSize::FourKiB)
        } else if value == 0x4000 {
            Some(PageSize::SixteenKiB)
        } else {
            None
        }
    }
}

/// A memory allocator that provides pages of physical memory.
pub trait PageAllocator {
    /// The consistency condition that every operation expects and keeps.
    ///
    /// An allocator without a condition of its own keeps this default.
    open spec fn well_formed(&self) -> bool {
        true
    }

    /// The size of one page in this allocator.
    ///
    /// A verified allocator says here what [`PageAllocator::page_size`] returns.
    open spec fn spec_page_size(&self) -> PageSize {
        arbitrary()
    }

    /// Whether the byte at `address` is memory that the allocator holds as free.
    ///
    /// A verified allocator says here which memory it holds as free: memory that it hands
    /// out is free no longer, and memory that it takes back is free again.
    open spec fn is_free(&self, address: int) -> bool {
        false
    }

    /// The number of requests for one page each that the allocator is bound to grant, one
    /// after the other, each with a page of the 48-bit address space.
    ///
    /// An allocator that binds itself to nothing keeps this default, and is then promised
    /// to grant nothing. Only a verified allocator can say more here, and has then to prove
    /// that it grants as many requests.
    open spec fn spare_pages(&self) -> nat {
        0
    }

    /// The size of one page in this allocator.
    ///
    /// This value remains the same throughout the lifetime of the allocator.
    fn page_size(&self) -> (size: PageSize)
        requires
            self.well_formed(),
        ensures
            size == self.spec_page_size(),
    ;

    /// Allocate `num_pages` of memory, returning a pointer to the beginning which will be
    /// page-aligned and not null. A request for one page is granted, with a page of the
    /// 48-bit address space, where the allocator has a page to spare
    /// ([`PageAllocator::spare_pages`]).
    ///
    /// # Errors
    /// - [`Error::OutOfMemory`] if there is not enough memory to allocate `num_pages`.
    /// - [`Error::InvalidSize`] if `num_pages` is zero.
    fn allocate(&mut self, num_pages: usize) -> (r: Result<PhysicalAddress, Error>)
        requires
            old(self).well_formed(),
        ensures
            final(self).well_formed(),
            final(self).spec_page_size() == old(self).spec_page_size(),
            num_pages == 0 ==> r == Err::<PhysicalAddress, Error>(Error::InvalidSize),
            r is Ok ==> r->Ok_0.addr() != 0 && r->Ok_0.addr() % (
            old(self).spec_page_size().spec_bytes() as u64) == 0,
            r is Err ==> r->Err_0 == Error::InvalidSize || r->Err_0 == Error::OutOfMemory,
            forall|address: int|
                #[trigger] final(self).is_free(address) ==> old(self).is_free(address),
            num_pages == 1 && old(self).spare_pages() >= 1 ==> r is Ok && r->Ok_0.addr()
                < 0x1_0000_0000_0000 && final(self).spare_pages() == old(self).spare_pages() - 1,
            num_pages == 1 ==> final(self).spare_pages() + 1 >= old(self).spare_pages(),
    ;

    /// Free the pages pointed to by `pages` that points to a region of `num_pages`.
    /// This pointer must have been returned at some point from a call to
    /// [`PageAllocator::allocate`] that allocated exactly `num_pages`.
    ///
    /// Freeing takes no memory away from what the allocator holds as free, and the pages
    /// that the allocator takes back are free afterwards.
    ///
    /// # Errors
    /// - [`Error::UnknownPtr`] if `pages` is null or was not allocated by this allocator.
    fn free(&mut self, pages: PhysicalAddress, num_pages: usize) -> (r: Result<(), Error>)
        requires
            old(self).well_formed(),
        ensures
            final(self).well_formed(),
            final(self).spec_page_size() == old(self).spec_page_size(),
            pages.addr() == 0 ==> r == Err::<(), Error>(Error::UnknownPtr),
            forall|address: int|
                old(self).is_free(address) ==> #[trigger] final(self).is_free(address),
            final(self).spare_pages() >= old(self).spare_pages(),
            r is Ok ==> forall|address: int|
                pages.addr() <= address < pages.addr() + num_pages * old(
                    self,
                ).spec_page_size().spec_bytes() ==> #[trigger] final(self).is_free(address),
    ;
}

} // verus!
