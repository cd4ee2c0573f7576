[package]
name = "sovereign_c"
version = "0.3.0"
edition = "2021"
publish = false

[dependencies]
memmap2 = "0.9"
