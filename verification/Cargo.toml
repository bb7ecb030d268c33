[package]
name = "meter_panel"
version = "0.1.0"
edition = "2021"
publish = false

[dependencies]
clap = { version = "=4.6.7", features = ["derive"] }
lodepng = "=3.12.2"
log = "=0.4.34"
rusttype = "0.9"
simple_logger = "=5.2.0"
xxhash-rust = { version = "=0.8.19", features = ["xxh3", "const_xxh3"] }
