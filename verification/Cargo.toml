[package]
name = "magpie_app"
version = "0.1.0"
edition = "2021"
publish = false

[dependencies]
regex = "1"
serde = { version = "1", features = ["derive"] }
serde_json = "1"
toml = "0.8"
dirs = "5"
plist = "1"
ureq = "2"
image = { version = "0.25", default-features = false, features = ["png"] }
