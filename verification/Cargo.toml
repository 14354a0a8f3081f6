[package]
name = "llmfast"
version = "0.1.0"
edition = "2021"
publish = false

[dependencies]
serde_json = "1"
memmap2 = "0.9"
libc = "0.2"
pollster = "0.4"
wgpu = "24"
