[package]
name = "wikigraph_model"
version = "0.1.0"
edition = "2021"
publish = false

[dependencies]
indexmap = { version = "2", features = ["rayon"] }
petgraph = "0.8"
pulldown-cmark = { version = "0.13", default-features = false }
serde = { version = "1", features = ["derive"] }
serde_derive = "1"
serde_json = "1"
jiff = { version = "0.2", features = ["serde"] }
argh = "0.1"
anyhow = "1"
tracing = "0.1"
tracing-subscriber = "0.3"
rayon = "1"
