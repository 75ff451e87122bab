[package]
name = "lykiadb"
version = "0.1.0"
edition = "2021"
publish = false

[dependencies]
rustc-hash = "*"
interb = "*"
smallvec = "*"
serde = { version = "*", features = ["derive"] }
serde_json = "*"
