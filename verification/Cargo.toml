[package]
name = "param_resolver"
version = "0.1.0"
edition = "2021"
publish = false

[dependencies]
axum = "0.6"
clap = { version = "4", features = ["derive"] }
http = "0.2"
hyper = { version = "0.14", features = ["server", "http1", "tcp"] }
serde = { version = "1", features = ["derive"] }
serde_json = "1"
serde_yaml = "0.9"
tokio = { version = "1", features = ["macros", "rt-multi-thread", "sync", "net"] }
tower = "0.4"
tower-http = { version = "0.4", features = ["trace", "compression-gzip"] }
tracing = "0.1"
tracing-subscriber = "0.3"
walkdir = "2"

[dev-dependencies]
json-patch = "*"
