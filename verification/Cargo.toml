[package]
name = "vidx"
version = "0.1.0"
edition = "2021"
publish = false

[dependencies]
blake3 = "=1.8.7"
url = "=2.5.8"
chrono = "=0.4.45"
serde = { version = "1", features = ["derive"] }
serde_json = "=1.0.154"
image = { version = "=0.25.10", default-features = false, features = ["png"] }
webp = { version = "=0.3.1", default-features = false }
tokio = { version = "1", features = ["full"] }
tokio-util = "0.7"
async-trait = "0.1"
futures = "0.3"
bytes = "1"
reqwest = { version = "0.12", default-features = false, features = ["rustls-tls", "stream"] }
object_store = { version = "0.13", features = ["aws", "gcp", "azure"] }
memmap2 = "0.9"
tempfile = "3"
thiserror = "2"
tracing = "0.1"
libc = "0.2"
tokenizers = { version = "0.22", default-features = false, features = ["fancy-regex"] }
ort = "=2.0.0-rc.12"
ffmpeg-next = "7"
