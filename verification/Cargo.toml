[package]
name = "arcrun"
version = "0.1.0"
edition = "2021"
publish = false

[dependencies]
uuid = { version = "=1.29.0", features = ["serde", "v4", "v7"] }
url = "=2.5.8"
dashmap = "=6.2.1"
serde = { version = "=1.0.229", features = ["derive"] }
serde_json = "=1.0.154"
prometheus = { version = "=0.14.0", default-features = false }
chrono = { version = "=0.4.45", features = ["serde"] }
log = "=0.4.35"
env_logger = "=0.11.11"
dotenvy = "=0.15.7"
futures-util = "=0.3.34"
tokio = { version = "=1.54.1", features = ["macros", "rt", "rt-multi-thread", "sync", "time"] }
actix-web = { version = "=4.18.1", default-features = false, features = ["macros"] }
actix-web-prom = "=0.10.0"
diesel = { version = "=2.3.14", default-features = false, features = ["postgres_backend", "uuid", "chrono", "serde_json"] }
diesel-async = { version = "=0.9.2", features = ["postgres", "bb8", "migrations"] }
diesel_migrations = "=2.3.2"
reqwest = { version = "=0.12.28", default-features = false, features = ["json", "rustls-tls"] }
rustls = { version = "=0.23.46", default-features = false, features = ["ring", "std"] }
rustls-platform-verifier = "=0.7.1"
tokio-postgres = "=0.7.18"
tokio-postgres-rustls = "=0.14.0"
mimalloc = "=0.1.52"
utoipa = { version = "=5.5.0", features = ["uuid"] }
