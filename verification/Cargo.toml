[package]
name = "raptor"
version = "0.1.0"
edition = "2021"
publish = false

[dependencies]
time = { version = "0.3", features = ["formatting", "parsing", "macros", "serde"] }
serde = { version = "1", features = ["derive"] }
csv = "1"
zip = "*"
rusqlite = { version = "*", features = ["bundled"] }
libsql = { version = "*", default-features = false, features = ["core"] }
axum = "0.7"
askama_axum = "0.4"
tokio = { version = "1", features = ["full"] }
tower-http = { version = "0.5", features = ["fs", "trace"] }
tracing = "0.1"
tracing-subscriber = { version = "0.3", features = ["env-filter"] }
