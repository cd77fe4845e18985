[package]
name = "mismall"
version = "2.0.0"
edition = "2021"
publish = false

[dependencies]
aes-gcm = "0.10"
pbkdf2 = "0.12"
sha2 = "0.10"
clap = { version = "4", features = ["derive"] }
tempfile = "3"
