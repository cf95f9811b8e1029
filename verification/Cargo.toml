[package]
name = "quickql"
version = "0.1.0"
edition = "2021"
publish = false

[dependencies]
anyhow = "1"
axum = "0.7"
base64 = "0.22"
chrono = "0.4"
clap = { version = "4", features = ["derive"] }
csv = "1"
faer = "*"
linfa = "*"
linfa-clustering = "*"
linfa-nn = "*"
manifolds-rs = "*"
ndarray = "0.16"
rand = "0.8"
reqwest = { version = "0.12", default-features = false, features = ["blocking", "json"] }
serde = { version = "1", features = ["derive"] }
serde_json = "1"
tokio = { version = "1", features = ["rt-multi-thread", "macros", "net", "io-std", "sync"] }
tower-lsp = "0.20"
url = "2"
