[package]
name = "fontsub"
version = "0.1.0"
edition = "2021"
publish = false

[dependencies]
anyhow = "*"
axum = "*"
env_logger = "*"
harfbuzz_rs_now = "*"
log = "*"
md5 = "*"
serde = { version = "*", features = ["derive"] }
serde_json = "*"
thiserror = "*"
tokio = { version = "*", features = ["full"] }
tower-http = { version = "*", features = ["cors", "fs"] }
ttf-parser = "*"
walkdir = "*"
woff = "*"
