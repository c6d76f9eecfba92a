[package]
name = "chronos_vfs"
version = "0.1.0"
edition = "2021"
publish = false

[dependencies]
md5 = "0.7"
memmap2 = "0.9"
tokio = { version = "1", features = ["full"] }
