//! Policies and definitions for processing hardware exceptions.
//! This includes interrupts, synchronous exceptions, etc.
use vstd::prelude::*;

pub mod interrupt;

pub use interrupt::Controller as InterruptController;
pub use interrupt::Id as InterruptId;

use crate::bits::{
    bit, bit_range_u64, lemma_bit_range_bound, lemma_low_masks, lemma_set_single_bit,
    set_bit, spec_bit, spec_bit_range,
};

verus! {

/// The number of general purpose registers that are stored.
pub const REGISTER_COUNT: usize = 31;

/// The largest number of arguments that are passed in registers.
pub const MAX_REGISTER_ARGS: usize = 8;

/// A stored version of the registers `x0..x30`.
#[derive(Copy, Clone, Debug)]
pub struct Registers {
    /// The values of the xN registers in order.
    pub x: [u64; 31],
}

impl Registers {
    /// Registers that are all zero.
    pub fn zeroed() -> (regs: Registers)
        ensures
            forall|i: int| 0 <= i < REGISTER_COUNT ==> regs.x@[i] == 0,
    {
        Registers { x: [0u64;31] }
    }

    /// Create a Registers struct that has the contents of args in the first registers. There
    /// can be up to 8, mirroring the typical ARM64 calling convention.
    pub fn from_args(args: &[u64]) -> (regs: Registers)
        requires
            args@.len() <= MAX_REGISTER_ARGS,
        ensures
            forall|i: int| 0 <= i < args@.len() ==> regs.x@[i] == args@[i],
            forall|i: int| args@.len() <= i < REGISTER_COUNT ==> regs.x@[i] == 0,
    {
        let mut regs = Registers::zeroed();
        let mut i: usize = 0;
        while i < args.len()
            invariant
                i <= args@.len() <= MAX_REGISTER_ARGS,
                forall|k: int| 0 <= k < i ==> regs.x@[k] == args@[k],
                forall|k: int| i <= k < REGISTER_COUNT ==> regs.x@[k] == 0,
            decreases args@.len() - i,
        {
            regs.x[i] = args[i];
            i = i + 1;
        }
        regs
    }
}

/// An exception class, indicating what kind of synchronous exception occurred.
#[derive(Copy, Clone, Debug, PartialEq, Eq, Structural)]
pub struct ExceptionClass(pub u8);

impl ExceptionClass {
    /// The exception class with the code `value`.
    pub fn from_u8(value: u8) -> (class: Self)
        ensures
            class.0 == value,
    {
        Self(value)
    }

    /// Whether the exception is an `SVC` instruction.
    pub fn is_system_call(&self) -> (b: bool)
        ensures
            b == (self.0 == 0b01_0101),
    {
        self.0 == 0b01_0101
    }

    /// Whether the exception is a data abort from a lower exception level.
    pub fn is_user_space_data_page_fault(&self) -> (b: bool)
        ensures
            b == (self.0 == 0b10_0100),
    {
        self.0 == 0b10_0100
    }

    /// Whether the exception is a data abort taken without a change in exception level.
    pub fn is_kernel_data_page_fault(&self) -> (b: bool)
        ensures
            b == (self.0 == 0b10_0101),
    {
        self.0 == 0b10_0101
    }

    /// Whether the exception is a data abort.
    pub fn is_data_abort(&self) -> (b: bool)
        ensures
            b == (self.0 == 0b10_0100 || self.0 == 0b10_0101),
    {
        self.is_user_space_data_page_fault() || self.is_kernel_data_page_fault()
    }

    /// Whether the exception is an instruction abort from a lower exception level.
    pub fn is_user_space_code_page_fault(&self) -> (b: bool)
        ensures
            b == (self.0 == 0b10_0000),
    {
        self.0 == 0b10_0000
    }

    /// The name of the exception class.
    pub open spec fn spec_description(code: u8) -> Seq<char> {
        if code == 0b00_0000 {
            "[Misc]"@
        } else if code == 0b00_0001 {
            "[Trapped WF* instruction]"@
        } else if code == 0b00_0111 {
            "[Access to SME, SVE, Advanced SIMD or floating-point functionality trapped by CPACR_EL1.FPEN, CPTR_EL2.FPEN, CPTR_EL2.TFP, or CPTR_EL3.TFP control]"@
        } else if code == 0b00_1010 {
            "[Trapped execution of an LD64B or ST64B* instruction.]"@
        } else if code == 0b00_1101 {
            "[Branch Target Exception]"@
        } else if code == 0b00_1110 {
            "[Illegal Execution state]"@
        } else if code == 0b01_0101 {
            "[SVC instruction]"@
        } else if code == 0b01_1000 {
            "[Trapped MSR, MRS or System instruction execution in AArch64 state, that is not reported using EC 0b00_0000, 0b00_0001, or 0b00_0111]"@
        } else if code == 0b10_0000 {
            "[Instruction Abort from a lower Exception level]"@
        } else if code == 0b10_0001 {
            "[Instruction Abort taken without a change in Exception level]"@
        } else if code == 0b10_0010 {
            "[PC alignment fault exception]"@
        } else if code == 0b10_0100 {
            "[Data Abort exception from a lower Exception level]"@
        } else if code == 0b10_0101 {
            "[Data Abort exception taken without a change in Exception level]"@
        } else if code == 0b10_0110 {
            "[SP alignment fault exception]"@
        } else {
            "[Unknown]"@
        }
    }

    /// The name of the exception class.
    pub fn description(&self) -> (text: &'static str)
        ensures
            text@ == Self::spec_description(self.0),
    {
        match self.0 {
            0b00_0000 => "[Misc]",
            0b00_0001 => "[Trapped WF* instruction]",
            0b00_0111 => "[Access to SME, SVE, Advanced SIMD or floating-point functionality trapped by CPACR_EL1.FPEN, CPTR_EL2.FPEN, CPTR_EL2.TFP, or CPTR_EL3.TFP control]",
            0b00_1010 => "[Trapped execution of an LD64B or ST64B* instruction.]",
            0b00_1101 => "[Branch Target Exception]",
            0b00_1110 => "[Illegal Execution state]",
            0b01_0101 => "[SVC instruction]",
            0b01_1000 => "[Trapped MSR, MRS or System instruction execution in AArch64 state, that is not reported using EC 0b00_0000, 0b00_0001, or 0b00_0111]",
            0b10_0000 => "[Instruction Abort from a lower Exception level]",
            0b10_0001 => "[Instruction Abort taken without a change in Exception level]",
            0b10_0010 => "[PC alignment fault exception]",
            0b10_0100 => "[Data Abort exception from a lower Exception level]",
            0b10_0101 => "[Data Abort exception taken without a change in Exception level]",
            0b10_0110 => "[SP alignment fault exception]",
            _ => "[Unknown]",
        }
    }
}

/// A value in the ESR (Exception Syndrome Register), which indicates the cause of an
/// exception.
#[derive(Copy, Clone, Debug, PartialEq, Eq, Structural)]
pub struct ExceptionSyndromeRegister(pub u64);

impl ExceptionSyndromeRegister {
    /// The second instruction specific syndrome field (bits 36 to 32).
    pub fn iss2(&self) -> (v: u8)
        ensures
            v == spec_bit_range(self.0, 36, 32),
    {
        let field = bit_range_u64(self.0, 36, 32);
        proof {
            lemma_bit_range_bound(self.0, 36, 32);
            lemma_low_masks();
        }
        field as u8
    }

    /// The exception class (bits 31 to 26).
    pub fn ec(&self) -> (class: ExceptionClass)
        ensures
            class.0 == spec_bit_range(self.0, 31, 26),
    {
        let field = bit_range_u64(self.0, 31, 26);
        proof {
            lemma_bit_range_bound(self.0, 31, 26);
            lemma_low_masks();
        }
        ExceptionClass(field as u8)
    }

    /// The instruction length bit (bit 25).
    pub fn il(&self) -> (set: bool)
        ensures
            set == spec_bit(self.0, 25),
    {
        bit(self.0, 25)
    }

    /// The instruction specific syndrome field (bits 24 to 0).
    pub fn iss(&self) -> (v: u32)
        ensures
            v == spec_bit_range(self.0, 24, 0),
    {
        let field = bit_range_u64(self.0, 24, 0);
        proof {
            lemma_bit_range_bound(self.0, 24, 0);
            lemma_low_masks();
        }
        field as u32
    }

    /// The description of the data fault status code of a data abort, and the empty text
    /// for any other exception.
    pub fn fault_description(&self) -> (text: &'static str)
        ensures
            text@ == (if spec_bit_range(self.0, 31, 26) == 0b10_0100 || spec_bit_range(
                self.0,
                31,
                26,
            ) == 0b10_0101 {
                spec_data_abort_dfsc_description((spec_bit_range(self.0, 24, 0) & 0b11_1111) as u8)
            } else {
                ""@
            }),
    {
        if self.ec().is_data_abort() {
            let iss = self.iss();
            assert(iss & 0b11_1111 <= 0b11_1111 && ((iss as u64) & 0b11_1111u64) == (iss
                & 0b11_1111u32) as u64) by (bit_vector);
            data_abort_dfsc_description((iss & 0b11_1111) as u8)
        } else {
            ""
        }
    }
}

/// The text that describes the data fault status code `code` of a data abort.
pub open spec fn spec_data_abort_dfsc_description(code: u8) -> Seq<char> {
    if code == 0b00_0000 {
        "Address size fault, level 0 of translation or translation table base register"@
    } else if code == 0b00_0001 {
        "Address size fault, level 1"@
    } else if code == 0b00_0010 {
        "Address size fault, level 2"@
    } else if code == 0b00_0011 {
        "Address size fault, level 3"@
    } else if code == 0b00_0100 {
        "Translation fault, level 0"@
    } else if code == 0b00_0101 {
        "Translation fault, level 1"@
    } else if code == 0b00_0110 {
        "Translation fault, level 2"@
    } else if code == 0b00_0111 {
        "Translation fault, level 3"@
    } else if code == 0b00_1000 {
        "Access flag fault, level 0"@
    } else if code == 0b00_1001 {
        "Access flag fault, level 1"@
    } else if code == 0b00_1010 {
        "Access flag fault, level 2"@
    } else if code == 0b00_1011 {
        "Access flag fault, level 3"@
    } else if code == 0b00_1100 {
        "Permission fault, level 0"@
    } else if code == 0b00_1101 {
        "Permission fault, level 1"@
    } else if code == 0b00_1110 {
        "Permission fault, level 2"@
    } else if code == 0b00_1111 {
        "Permission fault, level 3"@
    } else if code == 0b01_0000 {
        "Synchronous External abort, not on translation table walk or hardware update of translation table"@
    } else if code == 0b01_0001 {
        "Synchronous Tag Check Fault"@
    } else if code == 0b01_0011 {
        "Synchronous External abort on translation table walk or hardware update of translation table, level -1"@
    } else if code == 0b01_0100 {
        "Synchronous External abort on translation table walk or hardware update of translation table, level 0"@
    } else if code == 0b01_0101 {
        "Synchronous External abort on translation table walk or hardware update of translation table, level 1"@
    } else if code == 0b01_0110 {
        "Synchronous External abort on translation table walk or hardware update of translation table, level 2"@
    } else if code == 0b01_0111 {
        "Synchronous External abort on translation table walk or hardware update of translation table, level 3"@
    } else if code == 0b01_1000 {
        "Synchronous parity or ECC error on memory access, not on translation table walk"@
    } else if code == 0b01_1011 {
        "Synchronous parity or ECC error on memory access on translation table walk or hardware update of translation table, level -1"@
    } else if code == 0b01_1100 {
        "Synchronous parity or ECC error on memory access on translation table walk or hardware update of translation table, level 0"@
    } else if code == 0b01_1101 {
        "Synchronous parity or ECC error on memory access on translation table walk or hardware update of translation table, level 1"@
    } else if code == 0b01_1110 {
        "Synchronous parity or ECC error on memory access on translation table walk or hardware update of translation table, level 2"@
    } else if code == 0b01_1111 {
        "Synchronous parity or ECC error on memory access on translation table walk or hardware update of translation table, level 3"@
    } else if code == 0b10_0001 {
        "Alignment fault"@
    } else if code == 0b10_0011 {
        "Granule Protection Fault on translation table walk or hardware update of translation table, level -1"@
    } else if code == 0b10_0100 {
        "Granule Protection Fault on translation table walk or hardware update of translation table, level 0"@
    } else if code == 0b10_0101 {
        "Granule Protection Fault on translation table walk or hardware update of translation table, level 1"@
    } else if code == 0b10_0110 {
        "Granule Protection Fault on translation table walk or hardware update of translation table, level 2"@
    } else if code == 0b10_0111 {
        "Granule Protection Fault on translation table walk or hardware update of translation table, level 3"@
    } else if code == 0b10_1000 {
        "Granule Protection Fault, not on translation table walk or hardware update of translation table"@
    } else if code == 0b10_1001 {
        "Address size fault, level -1"@
    } else if code == 0b10_1011 {
        "Translation fault, level -1"@
    } else if code == 0b11_0000 {
        "TLB conflict abort"@
    } else if code == 0b11_0001 {
        "Unsupported atomic hardware update fault"@
    } else if code == 0b11_0100 {
        "IMPLEMENTATION DEFINED fault (Lockdown)"@
    } else if code == 0b11_0101 {
        "IMPLEMENTATION DEFINED fault (Unsupported Exclusive or Atomic access)"@
    } else {
        "?"@
    }
}

/// The text that describes the data fault status code `code` of a data abort.
pub fn data_abort_dfsc_description(code: u8) -> (text: &'static str)
    ensures
        text@ == spec_data_abort_dfsc_description(code),
{
    match code {
        0b00_0000 => "Address size fault, level 0 of translation or translation table base register",
        0b00_0001 => "Address size fault, level 1",
        0b00_0010 => "Address size fault, level 2",
        0b00_0011 => "Address size fault, level 3",
        0b00_0100 => "Translation fault, level 0",
        0b00_0101 => "Translation fault, level 1",
        0b00_0110 => "Translation fault, level 2",
        0b00_0111 => "Translation fault, level 3",
        0b00_1000 => "Access flag fault, level 0",
        0b00_1001 => "Access flag fault, level 1",
        0b00_1010 => "Access flag fault, level 2",
        0b00_1011 => "Access flag fault, level 3",
        0b00_1100 => "Permission fault, level 0",
        0b00_1101 => "Permission fault, level 1",
        0b00_1110 => "Permission fault, level 2",
        0b00_1111 => "Permission fault, level 3",
        0b01_0000 => "Synchronous External abort, not on translation table walk or hardware update of translation table",
        0b01_0001 => "Synchronous Tag Check Fault",
        0b01_0011 => "Synchronous External abort on translation table walk or hardware update of translation table, level -1",
        0b01_0100 => "Synchronous External abort on translation table walk or hardware update of translation table, level 0",
        0b01_0101 => "Synchronous External abort on translation table walk or hardware update of translation table, level 1",
        0b01_0110 => "Synchronous External abort on translation table walk or hardware update of translation table, level 2",
        0b01_0111 => "Synchronous External abort on translation table walk or hardware update of translation table, level 3",
        0b01_1000 => "Synchronous parity or ECC error on memory access, not on translation table walk",
        0b01_1011 => "Synchronous parity or ECC error on memory access on translation table walk or hardware update of translation table, level -1",
        0b01_1100 => "Synchronous parity or ECC error on memory access on translation table walk or hardware update of translation table, level 0",
        0b01_1101 => "Synchronous parity or ECC error on memory access on translation table walk or hardware update of translation table, level 1",
        0b01_1110 => "Synchronous parity or ECC error on memory access on translation table walk or hardware update of translation table, level 2",
        0b01_1111 => "Synchronous parity or ECC error on memory access on translation table walk or hardware update of translation table, level 3",
        0b10_0001 => "Alignment fault",
        0b10_0011 => "Granule Protection Fault on translation table walk or hardware update of translation table, level -1",
        0b10_0100 => "Granule Protection Fault on translation table walk or hardware update of translation table, level 0",
        0b10_0101 => "Granule Protection Fault on translation table walk or hardware update of translation table, level 1",
        0b10_0110 => "Granule Protection Fault on translation table walk or hardware update of translation table, level 2",
        0b10_0111 => "Granule Protection Fault on translation table walk or hardware update of translation table, level 3",
        0b10_1000 => "Granule Protection Fault, not on translation table walk or hardware update of translation table",
        0b10_1001 => "Address size fault, level -1",
        0b10_1011 => "Translation fault, level -1",
        0b11_0000 => "TLB conflict abort",
        0b11_0001 => "Unsupported atomic hardware update fault",
        0b11_0100 => "IMPLEMENTATION DEFINED fault (Lockdown)",
        0b11_0101 => "IMPLEMENTATION DEFINED fault (Unsupported Exclusive or Atomic access)",
        _ => "?",
    }
}

/// A system CPU exception mask (DAIF register) value.
///
/// In this register, 0 is enabled and 1 is disabled.
#[derive(Copy, Clone, Debug, PartialEq, Eq, Structural)]
pub struct CpuExceptionMask(pub u64);

impl CpuExceptionMask {
    /// Whether debug exceptions are masked (bit 9).
    pub fn debug(&self) -> (set: bool)
        ensures
            set == spec_bit(self.0, 9),
    {
        bit(self.0, 9)
    }

    /// Whether system errors are masked (bit 8).
    pub fn sys_error(&self) -> (set: bool)
        ensures
            set == spec_bit(self.0, 8),
    {
        bit(self.0, 8)
    }

    /// Whether interrupts are masked (bit 7).
    pub fn irq(&self) -> (set: bool)
        ensures
            set == spec_bit(self.0, 7),
    {
        bit(self.0, 7)
    }

    /// Whether fast interrupts are masked (bit 6).
    pub fn frq(&self) -> (set: bool)
        ensures
            set == spec_bit(self.0, 6),
    {
        bit(self.0, 6)
    }

    /// A mask to enable all exceptions.
    pub fn all_enabled() -> (mask: CpuExceptionMask)
        ensures
            mask.0 == 0,
    {
        CpuExceptionMask(0)
    }

    /// A mask to disable all exceptions: the four mask bits are set, and no others.
    pub fn all_disabled() -> (mask: CpuExceptionMask)
        ensures
            mask.0 == 0x3c0,
    {
        let s = set_bit(0, 9, true);
        let s = set_bit(s, 6, true);
        let s = set_bit(s, 7, true);
        let s = set_bit(s, 8, true);
        proof {
            lemma_set_single_bit(0, 9, true);
            lemma_set_single_bit(0x200, 6, true);
            lemma_set_single_bit(0x240, 7, true);
            lemma_set_single_bit(0x2c0, 8, true);
            assert(0u64 | (1u64 << 9u64) == 0x200 && 0x200u64 | (1u64 << 6u64) == 0x240 && 0x240u64
                | (1u64 << 7u64) == 0x2c0 && 0x2c0u64 | (1u64 << 8u64) == 0x3c0) by (bit_vector);
        }
        CpuExceptionMask(s)
    }
}

} // verus!
