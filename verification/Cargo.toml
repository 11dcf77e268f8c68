[package]
name = "mneueventlib"
version = "0.1.0"
edition = "2021"
publish = false

[dependencies]
anyhow = "1"
bytemuck = { version = "1", features = ["derive"] }
chrono = "0.4"
hdf5 = "0.8"
ndarray = "0.16"
numpy = "*"
pollster = "0.4"
pyo3 = "*"
rayon = "1"
seq-macro = "0.3"
serde = { version = "1", features = ["derive"] }
serde_json = "1"
tabled = "*"
wgpu = "23"

[dev-dependencies]
tempfile = "3"
