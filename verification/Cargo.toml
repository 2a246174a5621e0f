[package]
name = "gfs"
version = "0.1.0"
edition = "2021"
publish = false

[dependencies]
sha1 = "0.10"
sha2 = "0.10"
serde = { version = "1", features = ["derive"] }
serde_json = "1"
bytes = "1"
http = "1"
http-body-util = "0.1"
hyper-util = { version = "0.1", features = ["client-legacy", "http1", "tokio"] }
tokio = { version = "1", features = ["rt-multi-thread", "net", "io-util", "sync", "time"] }
libc = "0.2"
tracing = "0.1"
async-trait = "0.1"
fuser = { version = "*", default-features = false }
git2 = { version = "0.20", default-features = false }
