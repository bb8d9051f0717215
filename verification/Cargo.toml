[package]
name = "finals_loadouts"
version = "0.1.0"
edition = "2021"
publish = false

[dependencies]
rand = "*"
vello_cpu = "*"
vello_common = "*"
skrifa = "*"
eyre = "*"
futures = "*"
serde = { version = "1", features = ["derive"] }
serde_json = "1"
tokio = { version = "1", features = ["macros", "rt-multi-thread", "signal", "fs", "sync", "io-util"] }
reqwest = { version = "0.12", default-features = false, features = ["rustls-tls"] }
serenity = "0.12"
webpki-root-certs = "*"
