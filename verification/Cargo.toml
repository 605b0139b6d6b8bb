[package]
name = "market_forge"
version = "0.1.0"
edition = "2021"
publish = false

[dependencies]
slab = "*"
tabled = "*"
thiserror = "*"
