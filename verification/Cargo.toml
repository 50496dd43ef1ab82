[package]
name = "torrent"
version = "0.1.0"
edition = "2021"
publish = false

[dependencies]
anyhow = "=1.0.104"
bytes = "=1.12.1"
clap = { version = "=4.6.7", features = ["derive"] }
futures = "=0.3.34"
hex = "=0.4.3"
kanal = "=0.1.1"
rand = "=0.8.8"
serde = { version = "=1.0.229", features = ["derive"] }
serde_bencode = "=0.2.4"
sha1 = "=0.10.7"
tokio = { version = "=1.54.1", features = ["fs", "io-util", "macros", "net", "rt-multi-thread", "sync", "time"] }
tokio-util = { version = "=0.7.20", features = ["codec"] }
url = "=2.5.8"

[dev-dependencies]
nom = "=7.1.3"
