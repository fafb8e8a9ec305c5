//! Bring-up of the subsystems of the kernel, in the order in which a boot runs them.
//!
//! Each step builds the state of a subsystem from what the device tree says. What a step
//! cannot do itself, because it touches the hardware, it leaves to its caller.
pub mod interrupts;
pub mod memory;
pub mod thread;
