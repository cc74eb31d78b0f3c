[package]
name = "trmnl"
version = "0.1.0"
edition = "2021"
publish = false

[dependencies]
byteorder = "1"
base32 = "0.5"
sha3 = "0.10"
constant_time_eq = "0.4"
uuid = { version = "1", features = ["v7", "serde"] }
rand = "0.9"
bincode = { version = "2", features = ["serde"] }
redb = "*"
axum = "0.8"
axum-extra = { version = "0.10", features = ["typed-header"] }
tokio = { version = "1", features = ["full"] }
tower-http = { version = "0.6", features = ["fs", "set-header", "trace"] }
tracing = "0.1"
tracing-subscriber = { version = "0.3", features = ["env-filter"] }
serde = { version = "1", features = ["derive"] }
serde-big-array = "*"
chrono = { version = "0.4", features = ["serde"] }
url = { version = "2", features = ["serde"] }
macaddr = { version = "1", features = ["serde_std"] }
semver = { version = "1", features = ["serde"] }
bytes = "1"
reqwest = { version = "0.12", default-features = false, features = ["rustls-tls"] }
ratatui = "*"
mousefood = "*"
embedded-graphics = "*"
num-complex = "*"
image = { version = "0.25", default-features = false, features = ["png"] }
thiserror = "2"
