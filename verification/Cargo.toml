[package]
name = "netex_graph"
version = "0.1.0"
edition = "2021"
publish = false

[dependencies]
roxmltree = "*"
xxhash-rust = { version = "*", features = ["xxh3"] }
base64 = "0.13"
serde = { version = "*", features = ["derive"] }
serde_json = "*"
clap = { version = "*", features = ["derive"] }
zip = { version = "0.6", default-features = false, features = ["deflate"] }
memmap = "0.7"
rayon = "*"
geo = "*"
