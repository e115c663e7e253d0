[package]
name = "forward"
version = "0.1.0"
edition = "2021"
publish = false

[dependencies]
bincode = "1.3"
conerror = "*"
env_logger = "0.10"
log = "0.4"
rustls-native-certs = "0.7"
rustls-pemfile = "2"
serde = { version = "1", features = ["derive"] }
sha2 = "0.10"
structopt = "0.3"
tokio = { version = "1", features = ["rt-multi-thread", "macros", "net", "io-util", "sync", "time", "signal"] }
tokio-rustls = "0.25"
