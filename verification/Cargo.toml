[package]
name = "procedure_crafter"
version = "0.1.0"
edition = "2021"
publish = false

[dependencies]
fontdue = "=0.9.5"
mirl = "=4.7.1"
num-traits = "=0.2.19"
once_cell = "=1.21.4"
wasm-bindgen = "=0.2.130"
web-sys = { version = "=0.3.107", features = ["Window", "Document", "Element", "HtmlElement", "Node", "HtmlCanvasElement", "CanvasRenderingContext2d", "ImageData", "Performance"] }
