[package]
name = "nekop2p"
version = "0.1.0"
edition = "2021"
publish = false

[dependencies]
anyhow = "*"
clap = { version = "*", features = ["derive"] }
futures = "*"
rand = "*"
serde = { version = "*", features = ["derive"] }
tarpc = { version = "*", features = ["serde-transport", "serde-transport-bincode", "tcp"] }
tokio = { version = "*", features = ["macros", "rt-multi-thread", "signal", "fs", "net", "sync", "io-util"] }
toml = "*"
uuid = { version = "*", features = ["v4", "serde"] }
