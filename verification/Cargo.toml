[package]
name = "mailarchive"
version = "0.1.0"
edition = "2021"
publish = false

[dependencies]
clap = { version = "=4.6.7", features = ["derive", "env"] }
dotenvy = "=0.15.7"
imap = { version = "=3.0.0-alpha.15", default-features = false, features = ["native-tls"] }
imap-proto = "=0.16.7"
native-tls = "=0.2.18"
serde = { version = "=1.0.229", features = ["derive"] }
serde_json = "=1.0.154"
