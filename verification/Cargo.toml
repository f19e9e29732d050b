[package]
name = "boids"
version = "0.1.0"
edition = "2021"
publish = false

[dependencies]
fnv = "1"
futures = "0.3"
gloo-timers = { version = "*", features = ["futures"] }
ordered-float = "*"
pinwheel = "*"
rand = "*"
wasm-bindgen-futures = "*"
web-sys = { version = "*", features = ["Window", "Document", "HtmlElement"] }
