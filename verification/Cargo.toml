[package]
name = "simple_file_store"
version = "0.1.0"
edition = "2021"
publish = false

[dependencies]
anyhow = "*"
axum = { version = "*", features = ["multipart"] }
axum-extra = { version = "*", features = ["typed-header"] }
form_urlencoded = "*"
fs2 = "*"
jsonwebtoken = "*"
mime_guess = "*"
rand = "*"
rustix = { version = "*", features = ["fs"] }
serde = { version = "*", features = ["derive"] }
serde_json = "*"
tokio = { version = "*", features = ["full"] }
