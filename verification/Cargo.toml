[package]
name = "diffvibe"
version = "0.1.0"
edition = "2021"
publish = false

[dependencies]
similar = "2"
regex = "1"
xxhash-rust = { version = "0.8", features = ["xxh3"] }
clap = { version = "4", features = ["derive"] }
serde = { version = "1", features = ["derive"] }
rayon = "1"
tokio = { version = "1", features = ["rt"] }
fs_extra = "1"
