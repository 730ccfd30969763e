[package]
name = "libsurfer"
version = "0.1.0"
edition = "2021"
publish = false

[dependencies]
ftr_parser = "=0.3.0"
tracing = "=0.1.44"
emath = "=0.37.0"
egui = { version = "=0.37.0", default-features = false }
bincode = "1.3"
lz4_flex = "=0.11.6"
serde = { version = "=1.0.229", features = ["derive"] }
