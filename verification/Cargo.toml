[package]
name = "ecs"
version = "0.1.0"
edition = "2021"
publish = false

[dependencies]
smallvec = "1"
rustc-hash = "2"
thread_local = "1"
