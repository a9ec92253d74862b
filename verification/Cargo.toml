[package]
name = "orchestrator"
version = "0.1.0"
edition = "2021"
publish = false

[dependencies]
serde_json = "1"
serde = { version = "1", features = ["derive"] }
chrono = "0.4"
chrono-tz = "*"
croner = "3"
axum = "0.8"
tokio = { version = "1", features = ["full"] }
tokio-util = "0.7"
futures = "0.3"
tracing = "0.1"
tracing-subscriber = { version = "0.3", features = ["env-filter"] }
r2d2 = "0.8"
r2d2_sqlite = { version = "*", features = ["bundled"] }
reqwest = { version = "0.12", default-features = false, features = ["json"] }
argon2 = "0.5"
getrandom = "0.3"
chacha20poly1305 = "*"
clap = { version = "4", features = ["derive", "env"] }
dirs = "*"
schemars = "1"
serde_yaml_ng = "*"
async-trait = "0.1"
libc = "0.2"
