[package]
name = "rsig"
version = "0.1.0"
edition = "2021"
publish = false

[dependencies]
blake3 = "*"
fastcdc = "*"
argh = "*"
console = "*"
globwalk = "*"
humansize = "*"
indicatif = "*"
serde = { version = "*", features = ["derive"] }
serde_json = "*"
tempfile = "*"
