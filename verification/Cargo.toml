[package]
name = "dirtybench"
version = "0.1.0"
edition = "2021"
publish = false

[dependencies]
anyhow = "*"
clap = { version = "*", features = ["derive"] }
libc = "*"
nix = { version = "*", features = ["mman"] }
rayon = "*"
rustix = { version = "*", features = ["param"] }
serde = { version = "*", features = ["derive"] }
serde_json = "*"
