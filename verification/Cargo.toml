[package]
name = "portunus"
version = "0.1.0"
edition = "2021"
publish = false

[dependencies]
chrono = "*"
clap = { version = "*", features = ["derive"] }
colored = "*"
dotenv = "*"
postgres = "*"
sha2 = "*"
tabled = "*"
walkdir = "*"
