[package]
name = "spotrank"
version = "0.1.0"
edition = "2021"
publish = false

[dependencies]
rusoto_core = { version = "*", default-features = false, features = ["rustls"] }
rusoto_ec2 = { version = "*", default-features = false, features = ["rustls"] }
tokio = { version = "*", features = ["rt-multi-thread", "macros"] }
clap = "*"
chrono = "*"
colored = "*"
