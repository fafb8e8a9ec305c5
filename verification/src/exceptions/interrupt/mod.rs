//! Interrupts are exceptions caused by hardware devices.
//!
//! Nothing here touches a device. An operation on a controller is a value that says which
//! register to write and what to write there; whoever owns the hardware performs it.
use vstd::prelude::*;

pub mod controller;
pub mod handler;

pub use handler::{Error as HandlerError, Handler};

verus! {

/// The identifier of an interrupt.
pub type Id = u32;

/// Trigger mode for an interrupt.
#[derive(Debug, Clone, Copy, PartialEq, Eq, Structural)]
pub enum TriggerMode {
    /// Use level triggering.
    Level,
    /// Use edge triggering.
    Edge,
}

/// A value that gives a boolean value for each CPU in the system.
pub type CpuMask = u8;

/// The configuration of an interrupt with the interrupt controller.
#[derive(Debug, Clone, Copy, PartialEq, Eq, Structural)]
pub struct Config {
    /// Priority level.
    pub priority: u8,
    /// CPUs that will handle the interrupt.
    pub target_cpu: CpuMask,
    /// Triggering mode for the interrupt.
    pub mode: TriggerMode,
}

impl Default for TriggerMode {
    fn default() -> (mode: Self)
        ensures
            mode == TriggerMode::Level,
    {
        TriggerMode::Level
    }
}

impl Default for Config {
    fn default() -> (config: Self)
        ensures
            config == (Config { priority: 0, target_cpu: 0, mode: TriggerMode::Level }),
    {
        Config { priority: 0, target_cpu: 0, mode: TriggerMode::Level }
    }
}

/// A write to a device register, for the owner of the device to perform.
#[allow(inconsistent_fields)]
#[derive(Debug, Clone, Copy, PartialEq, Eq, Structural)]
pub enum RegisterWrite {
    /// Write the 32-bit `value` to the register at `address`.
    Word {
        /// The address of the register.
        address: u64,
        /// The value to write.
        value: u32,
    },
    /// Write the byte `value` to the register at `address`.
    Byte {
        /// The address of the register.
        address: u64,
        /// The value to write.
        value: u8,
    },
}

/// An interrupt controller manages and collates interrupts for the processor.
/// This is the part of a controller that is a matter of computation alone: how the
/// controller's device tree binding spells an interrupt.
pub trait Controller {
    /// The interrupt that entry `index` of the `interrupts` property `data` names.
    ///
    /// A verified controller says here what [`Controller::interrupt_in_device_tree`] returns.
    open spec fn spec_interrupt_in_device_tree(&self, data: Seq<u8>, index: usize) -> Option<
        (Id, TriggerMode),
    > {
        arbitrary()
    }

    /// Interpret the contents of an `interrupts` property in a device tree node for this
    /// interrupt controller. The `index` selects which interrupt in the list to return.
    ///
    /// Returns the id and trigger mode for the interrupt.
    fn interrupt_in_device_tree(&self, data: &[u8], index: usize) -> (r: Option<(Id, TriggerMode)>)
        ensures
            r == self.spec_interrupt_in_device_tree(data@, index),
    ;
}

} // verus!
