[package]
name = "dhd"
version = "0.1.0"
edition = "2021"
publish = false

[dependencies]
anyhow = "1.0"
clap = "2.33"
crc = "1.8"
difference = "2.0"
graphql_client = { version = "0.14", default-features = false }
itertools = "0.9"
juniper = { version = "0.16", default-features = false }
juniper_rocket = "0.9"
r2d2_redis = "0.14"
reqwest = { version = "0.11", default-features = false, features = ["blocking", "json"] }
rocket = { version = "0.5", default-features = false }
serde = { version = "1.0", features = ["derive"] }
thiserror = "1.0"
url = "2.1"
