[package]
name = "keyed_grid"
version = "0.1.0"
edition = "2021"
publish = false

[dependencies]
leptos = { version = "0.6", features = ["csr"] }
