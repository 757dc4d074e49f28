[package]
name = "minecraft_schematic_utils"
version = "0.1.0"
edition = "2021"
publish = false

[dependencies]
quartz_nbt = "0.2.9"
flate2 = "1"
serde = { version = "1", features = ["derive"] }
serde_json = "1"
thiserror = "1"
wasm-bindgen = "0.2"
js-sys = "0.3"
web-sys = { version = "0.3", features = ["console"] }
