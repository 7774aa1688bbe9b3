[package]
name = "lifewall"
version = "0.1.0"
edition = "2021"
publish = false

[dependencies]
rustc-hash = "2"
wasm-bindgen = "0.2"
wasm-bindgen-futures = "0.4"
js-sys = "0.3"
console_error_panic_hook = "0.1"

[dependencies.web-sys]
version = "0.3"
features = ["Window", "Document", "Element", "HtmlElement", "HtmlCanvasElement", "CanvasRenderingContext2d", "ImageData", "KeyboardEvent", "Performance", "Request", "RequestInit", "Response", "CssStyleDeclaration", "EventTarget"]
