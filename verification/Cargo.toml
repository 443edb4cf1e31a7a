[package]
name = "rclone_decrypt"
version = "0.1.0"
edition = "2021"
publish = false

[dependencies]
anyhow = "1"
base64 = "0.22"
clap = { version = "4", features = ["cargo"] }
hex = "0.4"
scrypt = "0.11"
sodiumoxide = "0.2"
thiserror = "1"
