[package]
name = "vex_vision_scoring"
version = "0.1.0"
edition = "2021"
publish = false

[dependencies]
opencv = "*"
rocket = { version = "0.5", features = ["json"] }
serde = { version = "1", features = ["derive"] }
serde-wasm-bindgen = "*"
wasm-bindgen = "0.2"
wasm-bindgen-futures = "0.4"
web-sys = { version = "0.3", features = ["Window", "Document", "Element", "HtmlElement", "HtmlButtonElement", "HtmlDivElement", "Node", "RequestInit", "Response"] }
