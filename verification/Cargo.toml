[package]
name = "rapidraw_core"
version = "0.1.0"
edition = "2021"
publish = false

[dependencies]
anyhow = "=1.0.104"
blake3 = "=1.8.7"
chrono = "=0.4.45"
hex = "=0.4.3"
image = { version = "=0.25.10", default-features = false, features = ["jpeg", "png", "tiff"] }
imageproc = { version = "=0.27.0", default-features = false }
log = "=0.4.35"
nalgebra = "=0.35.0"
rand = "=0.10.3"
rawler = "=0.8.0"
rayon = "=1.12.0"
serde = { version = "=1.0.229", features = ["derive"] }
serde_json = "=1.0.154"
sha2 = "=0.10.9"
sysinfo = { version = "=0.40.1", default-features = false, features = ["system"] }
tempfile = "=3.27.0"
