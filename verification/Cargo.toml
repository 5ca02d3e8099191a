[package]
name = "library"
version = "0.1.0"
edition = "2021"
publish = false

[dependencies]
num-bigint = "=0.4.8"
num-rational = "=0.4.2"
num-traits = "=0.2.19"
astro-float = "=0.9.6"
regex = "=1.13.1"
chrono = "=0.4.45"
colored = "2"

[dev-dependencies]
