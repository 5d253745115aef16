[package]
name = "kvrouters"
version = "0.1.0"
edition = "2021"
publish = false

[dependencies]
axum = "0.7"
futures-util = "0.3"
k8s-openapi = { version = "0.24", features = ["v1_32"] }
kube = { version = "0.98", default-features = false, features = ["client", "runtime"] }
metrics = "0.24"
metrics-exporter-prometheus = { version = "0.16", default-features = false }
pyo3 = { version = "0.23", features = ["abi3-py39"] }
reqwest = { version = "0.12", default-features = false, features = ["json", "stream"] }
serde = { version = "1", features = ["derive"] }
serde_json = "1"
serde_yaml = "0.9"
thiserror = "2"
tokio = { version = "1", features = ["rt-multi-thread", "macros", "net", "signal", "sync", "time"] }
tracing = "0.1"
tracing-subscriber = { version = "0.3", features = ["json", "env-filter"] }
uuid = { version = "1", features = ["v4"] }
