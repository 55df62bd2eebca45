[package]
name = "diskghost"
version = "0.1.0"
edition = "2021"
publish = false

[dependencies]
blake3 = { version = "1", features = ["mmap"] }
clap = { version = "4", features = ["derive"] }
fs4 = "*"
globset = "0.4"
jwalk = "0.8"
rayon = "1"
same-file = "1"
serde = { version = "1", features = ["derive"] }
serde_json = "1"
trash = "*"
