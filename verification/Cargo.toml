[package]
name = "convmdblog"
version = "0.1.0"
edition = "2021"
publish = false

[dependencies]
chrono = "0.4"
indexmap = "2"
serde_yaml = "0.9"
pathdiff = "0.2"
lol_html = "*"
pulldown-cmark = { version = "0.9", default-features = false }
pulldown-cmark-to-cmark = "10"
serde = { version = "1", features = ["derive"] }
serde_with = "3"
clap = { version = "4", features = ["derive"] }

[dev-dependencies]
regex = "1"
