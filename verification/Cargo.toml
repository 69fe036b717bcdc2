[package]
name = "relativity_core"
version = "0.1.0"
edition = "2021"
publish = false

[dependencies]
num-rational = "=0.4.2"
num-bigint = "=0.4.8"
num-traits = "=0.2.19"
astro-float = "=0.9.6"
uom = { version = "=0.38.0", default-features = false, features = ["bigrational", "f64", "si", "std"] }
anyhow = "=1.0.104"
once_cell = "=1.21.4"
