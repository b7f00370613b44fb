[package]
name = "wiivci_core"
version = "0.1.0"
edition = "2021"
publish = false

[dependencies]
aes = "0.8"
anyhow = "1"
cbc = "0.1"
clap = { version = "4", features = ["derive", "env"] }
env_logger = "0.11"
image = { version = "0.25", default-features = false, features = ["png"] }
log = "0.4"
nod = { version = "1", default-features = false }
reqwest = { version = "0.12", default-features = false, features = ["blocking", "rustls-tls"] }
sha1 = "0.10"
sha2 = "0.10"
tempfile = "3"
zarust = "*"
