[package]
name = "gun"
version = "0.1.0"
edition = "2021"
publish = false

[dependencies]
serde_json = "1"
fnv = "1"
rand = "0.7"
url = "2"
anyhow = "1"
log = "0.4"
serde = "1"
async-trait = "0.1"
tokio = { version = "1", features = ["net", "rt-multi-thread", "macros", "time", "sync"] }
tokio-tungstenite = "0.20"
futures-util = "0.3"
futures-channel = { version = "0.3", features = ["sink"] }
wasm-bindgen = "0.2"
js-sys = "0.3"
web-sys = { version = "0.3", features = ["WebSocket", "MessageEvent", "ErrorEvent", "BinaryType"] }
async-std = { version = "1", features = ["unstable"] }
