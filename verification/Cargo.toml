[package]
name = "syncstate"
version = "0.1.0"
edition = "2021"
publish = false

[dependencies]
sha2 = "0.10"
bincode = { version = "2", features = ["serde"] }
serde = { version = "1", features = ["derive"] }
hex = "0.4"
rand = "0.9"
thiserror = "2"
tracing = "0.1"
rustls = { version = "0.23", default-features = false, features = ["std", "ring"] }
rustls-pki-types = { version = "1", features = ["std"] }
