[package]
name = "mermaid_ascii"
version = "0.1.0"
edition = "2021"
publish = false

[dependencies]
petgraph = "0.6"
clap = { version = "4", features = ["derive"] }
wasm-bindgen = "0.2"
