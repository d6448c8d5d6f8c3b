[package]
name = "phext_lattice"
version = "0.1.0"
edition = "2021"
publish = false

[dependencies]
libphext = "0.3.1"
memmap2 = "0.9"
tempfile = "3"
rayon = "1"
serde = { version = "1", features = ["derive"] }
serde_json = "1"
crossterm = "*"
ratatui = "*"
