[package]
name = "kdynaroll"
version = "0.1.0"
edition = "2021"
publish = false

[dependencies]
anyhow = "1"
axum = "0.7"
futures = "0.3"
http = "1"
k8s-openapi = { version = "0.23", features = ["latest"] }
kube = { version = "0.96", default-features = false, features = ["client", "derive", "runtime", "rustls-tls"] }
lazy_static = "1"
prometheus = "0.13"
schemars = "0.8"
serde = { version = "1", features = ["derive"] }
serde_json = "1"
tokio = { version = "1", features = ["macros", "net", "rt-multi-thread", "time"] }
tower-test = "0.4"
tracing = "0.1"
tracing-subscriber = "0.3"
