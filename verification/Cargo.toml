[package]
name = "raytracer"
version = "0.1.0"
edition = "2021"
publish = false

[dependencies]
console_error_panic_hook = "0.1"
eframe = { version = "0.37", default-features = false, features = ["default_fonts", "glow", "x11", "persistence"] }
enum_dispatch = "0.3"
env_logger = { version = "0.11", default-features = false }
js-sys = "0.3"
serde = { version = "1", features = ["derive"] }
wasm-bindgen = "0.2"
web-sys = { version = "0.3", features = ["console", "DedicatedWorkerGlobalScope"] }
