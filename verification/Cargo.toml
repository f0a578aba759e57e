[package]
name = "honeypot"
version = "0.1.0"
edition = "2021"
publish = false

[dependencies]
anyhow = "*"
chrono = "*"
dotenv = "*"
fern = "*"
futures = "*"
influx_db_client = "*"
log = "*"
maxminddb = "*"
sqlx = { version = "*", default-features = false, features = ["sqlite", "runtime-tokio"] }
thrussh = "*"
thrussh-keys = "*"
tokio = { version = "*", features = ["full"] }
