[package]
name = "hskclustering"
version = "0.1.0"
edition = "2021"
publish = false

[dependencies]
anyhow = "1"
clap = { version = "4", features = ["derive"] }
csv = "1"
graphrs = "0.12"
libc = "0.2"
linfa = "0.8"
linfa-clustering = "0.8"
linfa-linalg = "*"
linfa-reduction = "0.8"
ndarray = "0.16"
quick-xml = "*"
rand = "0.8"
rand_xoshiro = "0.6"
rayon = "1"
serde = { version = "1", features = ["derive"] }
serde_json = "1"
sha2 = "0.10"
tempfile = "3"
