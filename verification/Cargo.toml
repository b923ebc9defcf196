[package]
name = "novelai_api"
version = "0.1.0"
edition = "2021"
publish = false

[dependencies]
bytes = "*"
lazy_static = "*"
reqwest = { version = "*", default-features = false, features = ["json"] }
serde = "*"
serde_derive = "*"
thiserror = "*"
