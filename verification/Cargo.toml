[package]
name = "zygdrum"
version = "0.1.0"
edition = "2021"
publish = false

[dependencies]
cpal = "0.17"
fundsp = "=0.23.0"
midir = "=0.11.1"
ratatui = "=0.30.2"
wasm-bindgen = "=0.2.130"
