[package]
name = "fs_stats"
version = "0.1.0"
edition = "2021"
publish = false

[dependencies]
async-channel = "1"
clipboard = "0.5"
imgui = "0.7"
nfd = "0.0.4"
tokio = { version = "1", features = ["fs", "macros", "rt-multi-thread", "sync", "time"] }
