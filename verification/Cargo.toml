[package]
name = "zwcd"
version = "0.1.0"
edition = "2021"
publish = false

[dependencies]
strsim = "0.11"
unidecode = "0.3"
regex = "1"
chrono = { version = "0.4", features = ["serde"] }
serde = { version = "1", features = ["derive"] }
serde_json = "1"
axum = { version = "0.8", features = ["macros"] }
tokio = { version = "1", features = ["full"] }
diesel = { version = "2", features = ["sqlite", "r2d2", "chrono"] }
tera = { version = "1", default-features = false }
tower-sessions = "0.14"
tower-http = { version = "0.6", features = ["fs"] }
time = "0.3"
bcrypt = "*"
validator = { version = "*", features = ["derive"] }
dotenv = "0.15"
anyhow = "1"
log = "0.4"
thiserror = "1"
