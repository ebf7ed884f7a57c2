[package]
name = "chaste"
version = "0.1.0"
edition = "2021"
publish = false

[dependencies]
nodejs-semver = "=7.0.0"
ssri = "=9.2.0"
serde = { version = "=1.0.229", features = ["derive"] }
serde_json = "=1.0.154"
serde_norway = "*"
json5 = "=1.3.7"
argh = "=0.1.19"
anyhow = "=1.0.104"
thiserror = "=2.0.21"
yarn-lock-parser = "=0.14.0"
percent-encoding = "=2.3.2"
walkdir = "=2.5.0"
globreeks = "=0.1.1"
