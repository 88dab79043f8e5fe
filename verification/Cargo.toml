[package]
name = "open_websandbox"
version = "0.1.0"
edition = "2021"
publish = false

[dependencies]
async-compression = { version = "=0.4.52", features = ["tokio", "zstd"] }
axum = { version = "=0.8.9", features = ["multipart", "ws"] }
http-body-util = { version = "=0.1.5", features = ["channel"] }
k8s-openapi = { version = "=0.29.0", features = ["latest"] }
kube = { version = "=5.0.0", default-features = false, features = ["derive"] }
mime_guess = "=2.0.5"
nix = { version = "=0.31.3", features = ["feature", "fs", "process", "resource", "signal", "user"] }
opentelemetry = "=0.33.1"
opentelemetry-otlp = { version = "=0.33.1", default-features = false, features = ["trace", "grpc-tonic"] }
opentelemetry_sdk = "=0.33.1"
percent-encoding = "=2.3.2"
portable-pty = "=0.9.0"
prometheus = { version = "=0.14.0", default-features = false }
regex = "=1.13.1"
reqwest = { version = "=0.12.28", default-features = false }
schemars = "=1.2.3"
serde = { version = "=1.0.229", features = ["derive"] }
serde_json = "=1.0.154"
similar = "=2.7.0"
subtle = "=2.6.1"
tar = "=0.4.46"
thiserror = "=2.0.21"
tokio = { version = "=1.54.1", features = ["full"] }
tracing = "=0.1.44"
tracing-opentelemetry = "=0.34.0"
tracing-subscriber = { version = "=0.3.23", features = ["env-filter"] }
utoipa = "=5.5.0"
walkdir = "=2.5.0"
zip = { version = "=2.6.1", default-features = false, features = ["deflate"] }
