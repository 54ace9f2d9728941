[package]
name = "prose-lint"
version = "0.1.0"
edition = "2021"
publish = false

[dependencies]
aho-corasick = "1"
regex = "1"
serde = { version = "1", features = ["derive"] }
serde_json = "1"
glob = "0.3"
rayon = "1"
