[package]
name = "git_statistic"
version = "0.1.0"
edition = "2021"
publish = false

[dependencies]
clap = "*"
tokio = { version = "*", features = ["rt-multi-thread", "macros"] }
