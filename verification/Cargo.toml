[package]
name = "jetti"
version = "0.1.0"
edition = "2021"
publish = false

[dependencies]
clap = { version = "4", features = ["derive"] }
clap_complete = "4"
dirs = "*"
indicatif = "*"
owo-colors = "4"
rayon = "1"
serde = { version = "1", features = ["derive"] }
toml = "*"
thiserror = "2"
