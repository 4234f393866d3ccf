[package]
name = "gadget_decomposition"
version = "0.1.0"
edition = "2021"
publish = false

[dependencies]
bincode = "1.3"
mpi = "*"
rayon = "1"
serde = { version = "1.0", features = ["derive"] }
