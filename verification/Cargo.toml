[package]
name = "rays"
version = "0.1.0"
edition = "2021"
publish = false

[dependencies]
rand = { version = "0.8", features = ["small_rng"] }
image = "0.24"
rayon = "1"
log = "0.4"
simple_logger = "4"
