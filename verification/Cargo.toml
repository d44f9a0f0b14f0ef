[package]
name = "vastar"
version = "0.3.0"
edition = "2021"
publish = false

[dependencies]
bytes = "1"
tokio = { version = "1", features = ["rt-multi-thread", "macros", "net", "io-util", "time", "sync"] }
futures-util = "0.3"
clap = { version = "4", features = ["derive"] }
