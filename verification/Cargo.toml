[package]
name = "vault_index"
version = "0.1.0"
edition = "2021"
publish = false

[dependencies]
blake3 = "=1.8.7"
image = { version = "0.25", default-features = false, features = ["bmp", "gif", "ico", "jpeg", "png", "webp"] }
opener = "0.7"
serde = { version = "1", features = ["derive"] }
serde_json = "1"
sled = "0.34"
trash = "5"
walkdir = "2"
zip = { version = "2", default-features = false, features = ["deflate"] }
