[package]
name = "s-crypt"
version = "0.7.0"
edition = "2021"
publish = false

[dependencies]
aes-gcm = "0.10"
anyhow = "1"
argon2 = "0.5"
async-compression = { version = "0.4", features = ["tokio", "zstd"] }
chrono = "0.4"
clap = { version = "4", features = ["derive"] }
indicatif = "0.17"
rand = "0.8"
rpassword = "7"
serde = { version = "1", features = ["derive"] }
serde_json = "1"
tar = "0.4"
tokio = { version = "1", features = ["full"] }
zeroize = "1"
zstd = "0.13"
