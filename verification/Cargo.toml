[package]
name = "sv39_kernel"
version = "0.1.0"
edition = "2021"
publish = false

[dependencies]
xmas-elf = "0.7"
spin = "0.7"
lazy_static = { version = "1.4", features = ["spin_no_std"] }
bitflags = "1.2"
buddy_system_allocator = "0.6"
riscv = "*"
virtio-drivers = "*"
