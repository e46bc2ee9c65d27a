[package]
name = "rstar"
version = "0.1.0"
edition = "2021"
publish = false

[dev-dependencies]
rand = { version = "0.8", default-features = false }
rand_hc = "0.3"
