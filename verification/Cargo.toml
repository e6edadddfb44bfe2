[package]
name = "tct"
version = "0.1.0"
edition = "2021"
publish = false

[dependencies]
anyhow = "1"
directories = "4"
hex = "0.4"
jmt = "*"
rand_core = { version = "0.6", features = ["getrandom"] }
serde = { version = "1", features = ["derive"] }
serde_json = "1"
sha2 = "0.10"
structopt = "0.3"
tempfile = "3"
tokio = { version = "1", features = ["sync"] }
tracing = "0.1"
