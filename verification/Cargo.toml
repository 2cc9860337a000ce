[package]
name = "slice_core"
version = "0.1.0"
edition = "2021"
publish = false

[dependencies]
brotli = "=9.1.1"
clap = { version = "=4.6.7", features = ["derive"] }
console_error_panic_hook = "0.1"
flo_curves = "=0.8.1"
js-sys = "0.3"
kurbo = "=0.13.1"
leptos = { version = "0.8", features = ["csr"] }
miniz_oxide = "=0.9.1"
read-fonts = "=0.46.0"
serde = { version = "1", features = ["derive"] }
serde-wasm-bindgen = "0.6"
skrifa = "=0.49.0"
wasm-bindgen = "0.2"
wasm-bindgen-futures = "0.4"
web-sys = { version = "0.3", features = ["Blob", "BlobPropertyBag", "DataTransfer", "Document", "DragEvent", "Element", "Event", "EventTarget", "File", "FileList", "History", "HtmlAnchorElement", "HtmlElement", "HtmlInputElement", "HtmlSelectElement", "KeyboardEvent", "Location", "Node", "Response", "Url", "Window"] }
write-fonts = "=0.55.0"
wuff = "=0.2.9"
