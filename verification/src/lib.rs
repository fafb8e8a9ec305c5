//! Core data structures, algorithms and policies of a small AArch64 microkernel.
//!
//! Everything here is sequential state and pure computation: an owner of a
//! structure mutates it through `&mut`, and sharing between cores is left to
//! the caller (a lock around the structure gives the same behaviour as the
//! operations below run one after another).
pub mod memory;
pub mod platform;
pub mod bits;
pub mod exceptions;
pub mod psci;
pub mod timer;
pub mod uart;
pub mod collections;
pub mod process;
pub mod boot;
