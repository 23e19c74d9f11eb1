[package]
name = "renraku"
version = "0.1.0"
edition = "2021"
publish = false

[dependencies]
bincode = "1.3.3"
clap = { version = "4", features = ["derive"] }
color-eyre = "0.6"
rand = "0.8"
selecting = "*"
serde = { version = "1", features = ["derive"] }
thiserror = "1"
tracing = "0.1"
tracing-subscriber = "0.3"
