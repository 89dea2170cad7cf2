[package]
name = "pa"
version = "0.1.0"
edition = "2021"
publish = false

[dependencies]
bincode = "=1.3.3"
dashmap = "=4.0.2"
futures = "=0.3.34"
gmp-mpfr-sys = { version = "1", default-features = false, features = ["use-system-libs"] }
hex = "=0.4.3"
hpke = "=0.4.3"
native-tls = "=0.2.18"
rand = "=0.7.3"
rug = { version = "=1.19.2", default-features = false, features = ["integer", "rand", "serde"] }
serde = { version = "=1.0.229", features = ["derive"] }
tarpc = { version = "=0.24.1", features = ["full"] }
tokio = { version = "=1.54.1", features = ["full"] }
tokio-native-tls = "=0.3.1"
tokio-serde = { version = "=0.8.0", features = ["bincode"] }
tokio-stream = { version = "=0.1.19", features = ["net"] }
toml = "=0.5.11"
uuid = { version = "=0.8.2", features = ["v4", "serde"] }
