[package]
name = "judgment"
version = "0.1.0"
edition = "2021"
publish = false

[dependencies]
card_deck = "*"
rand = "0.8"
rand_chacha = "0.3"
pasetors = "0.6"
serde = { version = "1", features = ["derive"] }
serde_json = "1"
uuid = { version = "1", features = ["v4", "serde"] }
tokio = { version = "1", features = ["sync", "time", "macros", "rt-multi-thread"] }
axum = { version = "0.6", features = ["headers"] }
tower-http = { version = "0.4", features = ["fs"] }
log = "0.4"
thiserror = "1"
either = { version = "1", features = ["serde"] }
yew = { version = "0.20", features = ["csr"] }
gloo-net = "0.2"
gloo-dialogs = "0.1"
wasm-bindgen = "0.2"
web-sys = { version = "0.3", features = ["HtmlInputElement"] }
