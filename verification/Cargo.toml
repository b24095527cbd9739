[package]
name = "rga_core"
version = "0.1.0"
edition = "2021"
publish = false

[dependencies]
anyhow = "1"
axum = { version = "=0.7.9", features = ["ws"] }
console_error_panic_hook = "=0.1.7"
futures-util = "=0.3.34"
serde = { version = "=1.0.229", features = ["derive"] }
serde_json = "=1.0.154"
serde-wasm-bindgen = "=0.6.5"
tokio = { version = "=1.54.1", features = ["macros", "rt-multi-thread", "net", "sync"] }
tokio-tungstenite = "0.21"
wasm-bindgen = "=0.2.130"
