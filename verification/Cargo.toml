[package]
name = "lbbroker"
version = "0.1.0"
edition = "2021"
publish = false

[dependencies]
anyhow = "=1.0.104"
clap = { version = "=4.6.7", features = ["derive"] }
futures = "=0.3.34"
rand = "=0.10.3"
tokio = { version = "=1.53.2", features = ["full"] }
zeromq = "=0.6.0"
