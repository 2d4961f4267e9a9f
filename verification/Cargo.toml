[package]
name = "quantum_torrent"
version = "0.1.0"
edition = "2021"
publish = false

[dependencies]
serde = { version = "1", features = ["derive"] }
serde_json = "1"
roxmltree = "*"
rand = "0.8"
librqbit-core = "*"
mime_guess = "2"
if-addrs = "*"
maxminddb = "*"
tokio = { version = "1", features = ["rt", "net", "io-util", "sync", "time", "macros"] }
hyper = { version = "1", features = ["server", "http1"] }
hyper-util = { version = "0.1", features = ["tokio"] }
http-body-util = "0.1"
futures-util = "0.3"
tokio-util = { version = "0.7", features = ["io"] }
