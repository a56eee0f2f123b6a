[package]
name = "scn_patch"
version = "0.1.0"
edition = "2021"
publish = false

[dependencies]
emote-psb = { version = "=0.4.1", features = ["serde"] }
serde = { version = "=1.0.229", features = ["derive"] }
serde_json = "=1.0.151"
toml = "=0.5.11"
