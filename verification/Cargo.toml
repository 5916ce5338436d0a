[package]
name = "gradwork_ca"
version = "0.1.0"
edition = "2021"
publish = false

[dependencies]
rand_xoshiro = "0.7"
rayon = "1"
serde = { version = "1", features = ["derive"] }
serde_json = "1"
clap = { version = "4", features = ["derive"] }
csv = "1"
indicatif = "*"
toml = "*"
uuid = { version = "1", features = ["v4"] }
vox_writer = "*"
