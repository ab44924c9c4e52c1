[package]
name = "installer"
version = "0.1.0"
edition = "2021"
publish = false

[dependencies]
camino = "1"
alpm = "*"
chrono = "0.4"
clap = { version = "4", features = ["derive"] }
copy_dir = "*"
home = "*"
rustyline = "*"
serde = { version = "1", features = ["derive"] }
toml = "*"
