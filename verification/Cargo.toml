[package]
name = "http"
version = "0.1.0"
edition = "2021"
publish = false

[dependencies]
memchr = "2"
bytes = "1"
form_urlencoded = "1"
serde_json = "1"
base64 = "0.22"
uuid = { version = "1", features = ["v4"] }
chrono = "0.4"
tokio = { version = "1", features = ["full"] }
tokio-rustls = "0.26"
rustls = "0.23"
rustls-pemfile = "2"
rcgen = "0.13"
socket2 = { version = "0.6", features = ["all"] }
libc = "0.2"
futures = "0.3"
inventory = "0.3"
async-compression = { version = "0.4", features = ["tokio", "gzip", "brotli", "zstd"] }
thiserror = "2"
serde = { version = "1", features = ["derive"] }
url = "2"
syn = { version = "2", features = ["full"] }
quote = "1"
proc-macro2 = "1"
proc-macro-crate = "3"
