[package]
name = "dapil"
version = "0.1.0"
edition = "2021"
publish = false

[dependencies]
axum = "0.7"
cookie = "0.18"
form_urlencoded = "1"
futures-util = "0.3"
multer = "3"
nix = { version = "0.29", features = ["process"] }
pyo3 = "0.23"
pyo3-async-runtimes = { version = "0.23", features = ["tokio-runtime"] }
pyo3-log = "0.12"
regex = "1"
serde_json = "1"
socket2 = { version = "0.5", features = ["all"] }
tokio = { version = "1", features = ["full"] }
tokio-stream = "0.1"
tracing = "0.1"
actix-web = "4"
