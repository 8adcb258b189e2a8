[package]
name = "mackerel_agent"
version = "0.1.0"
edition = "2021"
publish = false

[dependencies]
clap = "2"
hostname = "*"
mackerel_client = "*"
rust-ini = "*"
tokio = { version = "1", features = ["macros", "rt-multi-thread", "time"] }
