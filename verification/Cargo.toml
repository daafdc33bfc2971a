[package]
name = "os4"
version = "0.1.0"
edition = "2021"
publish = false

[dependencies]
xmas-elf = "=0.7.0"
riscv = "=0.10.1"
spin = "=0.9.9"
lazy_static = { version = "=1.5.1", features = ["spin_no_std"] }
bytemuck = "1"
