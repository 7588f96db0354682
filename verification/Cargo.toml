[package]
name = "picunic"
version = "0.1.0"
edition = "2021"
publish = false

[dependencies]
image = "*"
serde_json = "*"
thiserror = "*"
clap = { version = "*", features = ["derive"] }
fontdue = "*"
ort = { version = "=2.0.0-rc.13", default-features = false }
wasm-bindgen = "*"
js-sys = "*"
