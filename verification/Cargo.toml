[package]
name = "icu_tool"
version = "0.1.0"
edition = "2021"
publish = false

[dependencies]
image = { version = "=0.25.10", default-features = false, features = ["webp", "png", "gif"] }
png = "=0.18.1"
clap = { version = "=4.6.7", features = ["derive"] }
clap_complete = "4"
serde = { version = "=1.0.229", features = ["derive"] }
serde_json = "=1.0.154"
log = "=0.4.35"
