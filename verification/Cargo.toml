[package]
name = "memnix"
version = "0.1.0"
edition = "2021"
publish = false

[dependencies]
blake3 = "*"
petgraph = "*"
rnix = "*"
clap = { version = "*", features = ["derive"] }
serde = { version = "*", features = ["derive"] }
thiserror = "*"
postcard = { version = "*", features = ["use-std"] }
ordered-float = { version = "*", features = ["serde"] }
cached = { version = "*", features = ["disk_store"] }
derive_builder = "*"
