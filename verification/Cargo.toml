[package]
name = "dfi18n"
version = "0.1.0"
edition = "2021"
publish = false

[dependencies]
regex = "1"
sha2 = "0.10"
base16ct = "0.2"
toml = { version = "0.8", features = ["preserve_order"] }
serde = { version = "1", features = ["derive"] }
serde_json = "1"
url = "2"
reqwest = { version = "0.12", default-features = false, features = ["json"] }
tokio = { version = "1", features = ["rt-multi-thread", "sync", "time"] }
ureq = { version = "3", default-features = false, features = ["json"] }
parking_lot = "0.12"
log = "0.4"
flexi_logger = { version = "0.29", default-features = false }
anyhow = "1"
csv = "1"
indexmap = { version = "2", features = ["serde"] }
