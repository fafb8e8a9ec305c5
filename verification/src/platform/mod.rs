//! Definitions and drivers for the ARM platform.
pub mod cpu;
pub mod device_tree;
pub mod timer;
