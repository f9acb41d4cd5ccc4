[package]
name = "trackit"
version = "0.1.0"
edition = "2021"
publish = false

[dependencies]
unicode-segmentation = "1"
leptos = { version = "0.8", features = ["csr"] }
rexie = "*"
serde = { version = "1", features = ["derive"] }
serde_json = "1"
serde-wasm-bindgen = "*"
wasm-bindgen = "*"
wasm-bindgen-futures = "*"
js-sys = "*"
console_error_panic_hook = "*"
web-sys = { version = "*", features = ["Window", "Document", "Storage", "Element", "HtmlElement", "HtmlInputElement", "HtmlAnchorElement", "Node", "Blob", "Url", "File", "FileList", "FileReader", "Event", "EventTarget", "TouchEvent", "TouchList", "Touch", "Navigator", "Clipboard", "Geolocation", "PositionOptions", "History", "Location"] }
