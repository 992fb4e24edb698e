[package]
name = "near_graph"
version = "0.1.0"
edition = "2021"
publish = false

[dependencies]
bincode = "2"
tokio = { version = "1", features = ["rt-multi-thread", "net", "io-util", "time", "sync", "macros"] }
rayon = "1"
arrow = "*"
