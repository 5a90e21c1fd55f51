[package]
name = "granular_core"
version = "0.1.0"
edition = "2021"
publish = false

[dependencies]
geese = "*"
glam = "*"
log = "0.4"
palette = "*"
rustc-hash = "*"
