[package]
name = "voxel"
version = "0.1.0"
edition = "2021"
publish = false

[dependencies]
crossbeam-channel = "0.5"
crossbeam = "0.8"
rand = "0.8"
serde = { version = "1", features = ["derive"] }
bincode = "1"
serde_json = "1"
tokio = { version = "1", features = ["full"] }
toml = "0.5"
noise = "0.7"
splines = "4"
dot_vox = "4"
log = "0.4"
lazy_static = "1"
anyhow = "1"
threadpool = "1"
