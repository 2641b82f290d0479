[package]
name = "poisson_ticker"
version = "0.1.0"
edition = "2021"
publish = false

[dependencies]
color-eyre = "0.6"
futures-util = "0.3"
rand = "0.8"
rand_distr = "0.4"
serde = { version = "1", features = ["derive"] }
serde_json = "1"
tokio = { version = "1", features = ["rt", "time"] }
tracing = "0.1"
