[package]
name = "linkdock"
version = "0.1.0"
edition = "2021"
publish = false

[dependencies]
quick-xml = "=0.37.5"
rand = "=0.8.8"
base64 = "=0.22.1"
sha2 = "=0.10.9"
hex = "=0.4.3"
time = { version = "=0.3.55", features = ["formatting"] }
url = "=2.5.8"
serde = { version = "=1.0.229", features = ["derive"] }
serde_json = "=1.0.154"
csv = "=1.4.0"
subtle = "=2.6.1"
uuid = { version = "=1.29.0", features = ["v4"] }
aes-gcm = "=0.10.3"
mime_guess = "=2.0.5"
rust-embed = "=8.13.0"
thiserror = "=2.0.21"
anyhow = "=1.0.104"
axum = "=0.8.9"
tokio = { version = "=1.54.1", features = ["macros", "rt-multi-thread", "net", "sync", "time"] }
sqlx = { version = "=0.8.6", default-features = false, features = ["runtime-tokio", "sqlite", "macros", "migrate"] }
tower-http = { version = "=0.6.11", features = ["cors", "trace"] }
tracing = "=0.1.44"
tracing-subscriber = { version = "=0.3.23", features = ["env-filter", "json"] }
lettre = { version = "=0.11.23", default-features = false, features = ["builder", "smtp-transport", "tokio1", "tokio1-rustls-tls", "hostname"] }
argon2 = "0.5"
