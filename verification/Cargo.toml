[package]
name = "k1fix"
version = "0.1.0"
edition = "2021"
publish = false

[dependencies]
rustc-hash = "*"
smallvec = "1"
nalgebra = "*"
parry3d-f64 = "*"
stl_io = "*"
threemf = "*"
serde = { version = "1", features = ["derive"] }
serde_json = "1"
toml = "*"
thiserror = "*"
anyhow = "1"
clap = { version = "4", features = ["derive"] }
owo-colors = "*"
