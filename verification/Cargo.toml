[package]
name = "heap_cell"
version = "0.1.0"
edition = "2021"
publish = false

[dependencies]
modular-bitfield = "0.11"
