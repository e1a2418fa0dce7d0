[package]
name = "ampc_core"
version = "0.1.0"
edition = "2021"
publish = false

[dependencies]
aes-prng = "=0.2.2"
bincode = "1"
blake3 = "=1.8.7"
chrono = "0.4"
clap = { version = "4", features = ["derive"] }
config = { version = "0.14", default-features = false }
eyre = "0.6"
futures-util = "0.3"
rand = "=0.8.8"
rand_chacha = "=0.3.1"
rand_core = "0.9"
serde = { version = "1", features = ["derive"] }
serde_json = "=1.0.154"
sqlx = { version = "0.8", default-features = false, features = ["postgres", "runtime-tokio"] }
tokio = { version = "1", features = ["rt", "sync", "macros", "time"] }
tracing = "0.1"
uuid = { version = "1", features = ["v4"] }

[dev-dependencies]
statrs = { version = "0.18", default-features = false }
