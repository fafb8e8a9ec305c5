[package]
name = "kernel_core"
version = "0.1.0"
edition = "2021"
publish = false

[dependencies]
bitfield = "*"
byteorder = "1"
crossbeam = "0.8"
hashbrown = "*"
itertools = "*"
log = "0.4"
spin = "0.9"
