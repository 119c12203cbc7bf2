[package]
name = "shard_core"
version = "0.1.0"
edition = "2021"
publish = false

[dependencies]
tokio = { version = "1", features = ["rt-multi-thread", "sync", "macros", "time"] }
async-trait = "0.1"
actix-web = "4"
