[package]
name = "rcore_os"
version = "0.1.0"
edition = "2021"
publish = false

[dependencies]
iset = "0.2"
priority-queue = "1.3"
sha2 = { version = "0.10", default-features = false }
xmas-elf = "0.7"
riscv = "0.10"
lazy_static = "1.4"
