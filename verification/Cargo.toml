[package]
name = "ringdl"
version = "0.1.0"
edition = "2021"
publish = false

[dependencies]
anyhow = "1"
clap = { version = "4", features = ["derive"] }
httparse = "1"
io-uring = "0.7"
ktls = "6"
libc = "0.2"
nix = { version = "0.29", features = ["fs", "net", "socket"] }
rustls = "0.23"
rustls-native-certs = "0.8"
tokio = { version = "1", features = ["rt", "net", "io-util", "time"] }
tokio-rustls = "0.26"
url = "2"
