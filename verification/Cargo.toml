[package]
name = "rxv6"
version = "0.1.0"
edition = "2021"
publish = false

[dependencies]
riscv = "0.10.1"
