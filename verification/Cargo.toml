[package]
name = "torrent_client"
version = "0.1.0"
edition = "2021"
publish = false

[dependencies]
sha1 = "0.10"
percent-encoding = "2"
url = "2"
tokio = { version = "1", features = ["rt-multi-thread", "macros", "net", "io-util", "time", "fs"] }
async-channel = "2"
reqwest = { version = "0.12", default-features = false }
clap = { version = "4", features = ["derive"] }
env_logger = "0.11"
log = "0.4"
thiserror = "1"

[dev-dependencies]
serde_bencode = "0.2"
