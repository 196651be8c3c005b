[package]
name = "noters"
version = "0.1.0"
edition = "2021"
publish = false

[dependencies]
anyhow = "*"
clap = { version = "*", features = ["derive"] }
colored = "*"
dotenv = "*"
env_logger = "*"
log = "*"
rusqlite = { version = "*", features = ["bundled"] }
tabled = "*"
thiserror = "*"
