[package]
name = "skunkr"
version = "0.1.0"
edition = "2021"
publish = false

[dependencies]
libmdbx = "*"
tokio = { version = "*", features = ["rt-multi-thread", "sync", "time", "macros"] }

[dev-dependencies]
tempfile = "*"
