[package]
name = "grid_pathfinder"
version = "0.1.0"
edition = "2021"
publish = false

[dependencies]
priority-queue = "*"
yew = { version = "*", features = ["csr"] }
web-sys = { version = "*", features = ["HtmlElement", "Element", "Node", "EventTarget", "MouseEvent", "Window", "Document"] }
wasm-bindgen = "*"
wasm-bindgen-futures = "*"
gloo-timers = { version = "*", features = ["futures"] }
