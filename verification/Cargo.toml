[package]
name = "ellidri"
version = "0.1.0"
edition = "2021"
publish = false

[dependencies]
anyhow = "*"
argon2 = "*"
base64 = "*"
clap = "*"
env_logger = "*"
futures = "*"
gethostname = "*"
humantime = "*"
log = "*"
rand_chacha = "*"
rand_core = "*"
rpassword = "*"
serde = { version = "*", features = ["derive"] }
serde_yaml = "*"
tokio = { version = "*", features = ["full"] }
