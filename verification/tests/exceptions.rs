use kernel_core::bits::{bit, set_bit};
use kernel_core::exceptions::{
    data_abort_dfsc_description, CpuExceptionMask, ExceptionClass, ExceptionSyndromeRegister,
    Registers,
};
use kernel_core::memory::{
    NotInKernelAddressSpaceError, PageSize, PhysicalAddress, PhysicalPointer, VirtualAddress,
    VirtualPointer, KERNEL_TAG,
};

#[test]
fn registers_hold_the_arguments_first() {
    assert_eq!(Registers::zeroed().x, [0; 31]);
    let regs = Registers::from_args(&[11, 12, 13]);
    assert_eq!(regs.x[..4], [11, 12, 13, 0]);
    assert_eq!(regs.x[4..], [0; 27]);
    let regs = Registers::from_args(&[1, 2, 3, 4, 5, 6, 7, 8]);
    assert_eq!(regs.x[..9], [1, 2, 3, 4, 5, 6, 7, 8, 0]);
    assert_eq!(Registers::from_args(&[]).x, [0; 31]);
}

#[test]
fn exception_classes_are_told_apart() {
    assert!(ExceptionClass::from_u8(0b01_0101).is_system_call());
    assert!(!ExceptionClass::from_u8(0b01_0100).is_system_call());
    assert!(ExceptionClass(0b10_0100).is_user_space_data_page_fault());
    assert!(!ExceptionClass(0b10_0100).is_kernel_data_page_fault());
    assert!(ExceptionClass(0b10_0101).is_kernel_data_page_fault());
    assert!(ExceptionClass(0b10_0100).is_data_abort());
    assert!(ExceptionClass(0b10_0101).is_data_abort());
    assert!(!ExceptionClass(0b10_0000).is_data_abort());
    assert!(ExceptionClass(0b10_0000).is_user_space_code_page_fault());
    assert!(!ExceptionClass(0b10_0001).is_user_space_code_page_fault());
    assert_eq!(ExceptionClass(0).description(), "[Misc]");
    assert_eq!(ExceptionClass(0b01_0101).description(), "[SVC instruction]");
    assert_eq!(
        ExceptionClass(0b10_0101).description(),
        "[Data Abort exception taken without a change in Exception level]"
    );
    assert_eq!(ExceptionClass(0b10_0110).description(), "[SP alignment fault exception]");
    assert_eq!(ExceptionClass(0b11_1111).description(), "[Unknown]");
    assert_eq!(ExceptionClass(0xff).description(), "[Unknown]");
}

#[test]
fn syndrome_register_fields() {
    let esr = ExceptionSyndromeRegister(0x0000_001f_9600_0047);
    assert_eq!(esr.iss2(), 0x1f);
    assert_eq!(esr.ec(), ExceptionClass(0b10_0101));
    assert!(esr.il());
    assert_eq!(esr.iss(), 0x47);
    assert_eq!(esr.fault_description(), "Translation fault, level 3");
    let esr = ExceptionSyndromeRegister(0x5600_0000 | 0x1ff_ffff);
    assert_eq!(esr.ec(), ExceptionClass(0b01_0101));
    assert!(esr.il());
    assert_eq!(esr.iss(), 0x1ff_ffff);
    assert_eq!(esr.iss2(), 0);
    assert_eq!(esr.fault_description(), "");
    let esr = ExceptionSyndromeRegister((0b10_0100 << 26) | 0b10_0001 | (1 << 6));
    assert!(!esr.il());
    assert_eq!(esr.fault_description(), "Alignment fault");
    assert_eq!(ExceptionSyndromeRegister(u64::MAX).iss2(), 0x1f);
    assert_eq!(ExceptionSyndromeRegister(u64::MAX).ec(), ExceptionClass(0x3f));
}

#[test]
fn data_fault_status_codes_are_described() {
    assert_eq!(
        data_abort_dfsc_description(0),
        "Address size fault, level 0 of translation or translation table base register"
    );
    assert_eq!(data_abort_dfsc_description(0b00_0101), "Translation fault, level 1");
    assert_eq!(data_abort_dfsc_description(0b00_1011), "Access flag fault, level 3");
    assert_eq!(data_abort_dfsc_description(0b00_1100), "Permission fault, level 0");
    assert_eq!(data_abort_dfsc_description(0b01_0001), "Synchronous Tag Check Fault");
    assert_eq!(data_abort_dfsc_description(0b01_0010), "?");
    assert_eq!(data_abort_dfsc_description(0b11_0000), "TLB conflict abort");
    assert_eq!(
        data_abort_dfsc_description(0b11_0101),
        "IMPLEMENTATION DEFINED fault (Unsupported Exclusive or Atomic access)"
    );
    assert_eq!(data_abort_dfsc_description(0b11_1111), "?");
    assert_eq!(data_abort_dfsc_description(0xff), "?");
}

#[test]
fn exception_masks() {
    assert_eq!(CpuExceptionMask::all_enabled().0, 0);
    assert_eq!(CpuExceptionMask::all_disabled().0, 0x3c0);
    let all = CpuExceptionMask::all_disabled();
    assert!(all.debug() && all.sys_error() && all.irq() && all.frq());
    let none = CpuExceptionMask::all_enabled();
    assert!(!(none.debug() || none.sys_error() || none.irq() || none.frq()));
    assert!(CpuExceptionMask(1 << 9).debug());
    assert!(CpuExceptionMask(1 << 8).sys_error());
    assert!(CpuExceptionMask(1 << 7).irq());
    assert!(CpuExceptionMask(1 << 6).frq());
    assert!(!CpuExceptionMask(!(1 << 7)).irq());
}

#[test]
fn single_bits_are_read_and_written() {
    assert!(bit(1, 0));
    assert!(!bit(1, 1));
    assert!(bit(1 << 63, 63));
    assert!(!bit(!(1 << 40), 40));
    assert_eq!(set_bit(0, 0, true), 1);
    assert_eq!(set_bit(0, 63, true), 1 << 63);
    assert_eq!(set_bit(u64::MAX, 5, false), !(1 << 5));
    assert_eq!(set_bit(0b1010, 1, true), 0b1010);
    assert_eq!(set_bit(0b1010, 2, false), 0b1010);
    assert_eq!(set_bit(0b1010, 3, false), 0b0010);
}

#[test]
fn physical_addresses_lie_below_the_kernel_tag() {
    assert_eq!(KERNEL_TAG, 0xffff_0000_0000_0000);
    let p = PhysicalAddress::new(0x4000_1000);
    assert_eq!(p.to_addr(), 0x4000_1000);
    assert!(!p.is_null());
    assert!(PhysicalAddress::null().is_null());
    assert_eq!(PhysicalAddress::null().to_addr(), 0);
    assert!(p.is_aligned_to(0x1000));
    assert!(!p.is_aligned_to(0x2000));
    assert!(PhysicalAddress::new(0).is_aligned_to(0x4000));
    assert_eq!(p.byte_add(0x234).to_addr(), 0x4000_1234);
    assert_eq!(p.to_kernel_virtual().to_addr(), 0xffff_0000_4000_1000);
    assert_eq!(PhysicalAddress::try_new(0xfffe_ffff_ffff_ffff).map(|p| p.to_addr()), Some(0xfffe_ffff_ffff_ffff));
    assert!(PhysicalAddress::try_new(KERNEL_TAG).is_none());
    assert!(PhysicalAddress::try_new(u64::MAX).is_none());
    let typed: PhysicalPointer<u64> = p.cast();
    assert_eq!(typed.to_addr(), 0x4000_1000);
    assert_eq!(typed.add(3).to_addr(), 0x4000_1018);
    assert_eq!(p.cast::<[u8; 4096]>().add(2).to_addr(), 0x4000_3000);
    assert_eq!(p.add(1000).to_addr(), 0x4000_1000);
    assert!(PhysicalAddress::new(1) < PhysicalAddress::new(2));
    assert_eq!(PhysicalAddress::new(5), PhysicalAddress::new(5));
}

#[test]
fn virtual_addresses_give_their_physical_address_in_kernel_space() {
    let v = VirtualAddress::new(0xffff_0000_4000_1000);
    assert!(v.is_in_kernel_space());
    assert_eq!(v.to_physical().map(|p| p.to_addr()), Ok(0x4000_1000));
    assert!(v.is_aligned_to(0x1000));
    assert!(!v.is_aligned_to(0x2000));
    assert_eq!(v.byte_add(8).to_addr(), 0xffff_0000_4000_1008);
    let user = VirtualAddress::new(0x4000_1000);
    assert!(!user.is_in_kernel_space());
    assert_eq!(user.to_physical().map(|p| p.to_addr()), Err(NotInKernelAddressSpaceError));
    assert!(!VirtualAddress::new(0xfffe_0000_0000_0000).is_in_kernel_space());
    assert!(VirtualAddress::null().to_addr() == 0);
    let typed = v.cast::<u32>();
    assert_eq!(typed.to_addr(), 0xffff_0000_4000_1000);
    let shared: VirtualPointer<u8> = VirtualPointer::new(0xffff_0000_4000_1000);
    assert_eq!(shared.cast::<u16>().to_addr(), 0xffff_0000_4000_1000);
    assert_eq!(shared.cast::<u16>().add(4).to_addr(), 0xffff_0000_4000_1008);
    assert_eq!(typed.add(4).to_addr(), 0xffff_0000_4000_1010);
    assert!(shared.is_in_kernel_space());
    assert_eq!(shared.to_physical().map(|p| p.to_addr()), Ok(0x4000_1000));
    assert_eq!(shared.byte_add(1).to_addr(), 0xffff_0000_4000_1001);
    assert!(VirtualPointer::<u8>::null().to_addr() == 0);
    assert!(shared.is_aligned_to(1));
}

#[test]
fn page_sizes() {
    assert_eq!(PageSize::FourKiB.bytes(), 4096);
    assert_eq!(PageSize::SixteenKiB.bytes(), 16384);
    assert_eq!(PageSize::from_bytes(4096), PageSize::FourKiB);
    assert_eq!(PageSize::from_bytes(16384), PageSize::SixteenKiB);
    assert_eq!(PageSize::try_from_bytes(4096), Some(PageSize::FourKiB));
    assert_eq!(PageSize::try_from_bytes(16384), Some(PageSize::SixteenKiB));
    assert_eq!(PageSize::try_from_bytes(8192), None);
    assert_eq!(PageSize::try_from_bytes(0), None);
}
