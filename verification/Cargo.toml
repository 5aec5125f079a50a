[package]
name = "workload_scheduler"
version = "0.1.0"
edition = "2021"
publish = false

[dependencies]
clap = { version = "*", features = ["derive"] }
tokio = { version = "*", features = ["rt", "sync", "macros", "time"] }

[dev-dependencies]
rand = "*"
