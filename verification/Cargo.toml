[package]
name = "matchbox_hybrid"
version = "0.1.0"
edition = "2021"
publish = false

[dependencies]
uuid = { version = "1", features = ["v4"] }
serde = { version = "1", features = ["derive"] }
serde_json = "1"
matchbox_protocol = "*"
matchbox_signaling = "*"
axum = "*"
tokio = { version = "1", features = ["rt-multi-thread", "macros"] }
async-trait = "*"
futures = "0.3"
futures-timer = "3"
tracing = "0.1"
tracing-subscriber = { version = "0.3", features = ["env-filter"] }
log = "0.4"
url = "2"
wasm-bindgen = "0.2"
wasm-bindgen-futures = "0.4"
js-sys = "0.3"
console_error_panic_hook = "0.1"
console_log = "1"
