[package]
name = "font_catalog"
version = "0.1.0"
edition = "2021"
publish = false

[dependencies]
font-kit = "0.14"
tauri = { version = "2", default-features = false }
