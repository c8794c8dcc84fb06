[package]
name = "story_shuffler"
version = "0.1.0"
edition = "2021"
publish = false

[dependencies]
petgraph = "0.6"
rand = "0.8"
regex = "1"
serde = { version = "1", features = ["derive"] }
egui = "0.21"
eframe = { version = "0.21", default-features = false, features = ["default_fonts", "glow", "persistence"] }
tracing-subscriber = "0.3"
console_error_panic_hook = "0.1"
tracing-wasm = "0.2"
wasm-bindgen-futures = "0.4"
