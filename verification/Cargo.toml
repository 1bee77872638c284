[package]
name = "stdf-convert"
version = "0.1.0"
edition = "2021"
publish = false

[dependencies]
rust-stdf = { version = "=0.4.1", features = ["serialize"] }
serde = { version = "=1.0.229", features = ["derive"] }
ryu = "=1.0.23"
clap = { version = "=4.6.7", features = ["derive"] }
walkdir = "=2.5.0"
thiserror = "=2.0.21"
