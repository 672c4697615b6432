[package]
name = "frame_harness"
version = "0.1.0"
edition = "2021"
publish = false

[dependencies]
rand = "0.8"
seed = "0.10"
wasm-bindgen = "0.2"
web-sys = { version = "0.3", features = ["Blob", "CanvasRenderingContext2d", "Event", "EventTarget", "File", "FileList", "HtmlCanvasElement", "HtmlInputElement", "ImageData"] }
