[package]
name = "blockfall"
version = "0.1.0"
edition = "2021"
publish = false

[dependencies]
rand = "0.8"
wasm-bindgen = "0.2"
js-sys = "0.3"
web-sys = { version = "0.3", features = ["Window", "Document", "Element", "HtmlCanvasElement", "WebGlBuffer", "WebGlProgram", "WebGlRenderingContext", "WebGlShader", "WebGlUniformLocation"] }
nalgebra-glm = "0.19"
wee_alloc = "0.4"
