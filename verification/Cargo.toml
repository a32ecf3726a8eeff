[package]
name = "disk_monitor"
version = "0.1.0"
edition = "2021"
publish = false

[dependencies]
anyhow = "1"
chrono = { version = "0.4", default-features = false, features = ["clock"] }
clap = { version = "4", features = ["derive", "env"] }
ksni = "0.3"
nix = { version = "0.29", features = ["fs"] }
open = "5"
reqwest = { version = "0.12", default-features = false, features = ["blocking"] }
tokio = { version = "1", features = ["rt", "sync", "time", "macros"] }
tracing = "0.1"
trash = "5"
walkdir = "2"
