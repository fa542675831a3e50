[package]
name = "netmon"
version = "0.1.0"
edition = "2021"
publish = false

[dependencies]
simple-dns = "*"
pnet = "*"
tokio = { version = "*", features = ["full"] }
rayon = "*"
tracing = "*"
tracing-appender = "*"
tracing-subscriber = { version = "*", features = ["env-filter"] }
dotenvy = "*"
serde = { version = "*", features = ["derive"] }
toml = "*"
ttlhashmap = "*"
