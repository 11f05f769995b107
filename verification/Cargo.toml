[package]
name = "rs_grill"
version = "0.1.0"
edition = "2021"
publish = false

[dependencies]
serde = { version = "1", features = ["derive"] }
serde_json = "1"
chrono = "0.4"
home = "0.5"
xlsxwriter = "*"
sysinfo = "0.29"
yew = { version = "0.20", features = ["csr"] }
web-sys = { version = "0.3", features = ["Window", "Document", "Element", "HtmlElement", "HtmlInputElement", "Event", "EventTarget", "MouseEvent", "KeyboardEvent", "SubmitEvent", "ScrollIntoViewOptions", "ScrollBehavior", "ScrollLogicalPosition", "console"] }
wasm-bindgen = "0.2"
wasm-bindgen-futures = "0.4"
serde-wasm-bindgen = "0.5"
gloo-timers = "0.2"
