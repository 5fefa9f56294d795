[package]
name = "tagscan"
version = "0.1.0"
edition = "2021"
publish = false

[dependencies]
zstd = "*"
serde = { version = "*", features = ["derive"] }
bincode = "1"
rayon = "*"
regex = "*"
destiny-pkg = "*"
