[package]
name = "nhtml"
version = "0.1.0"
edition = "2021"

[dependencies]
anyhow = "1"
clap = { version = "4", features = ["derive"] }
notify = "*"
notify-debouncer-full = "*"
thiserror = "1"
