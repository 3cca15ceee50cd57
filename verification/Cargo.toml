[package]
name = "elfvis"
version = "0.1.0"
edition = "2021"
publish = false

[dependencies]
gimli = "=0.31.1"
object = "=0.36.7"
wasm-bindgen = "=0.2.130"
js-sys = "=0.3.107"
web-sys = { version = "=0.3.107", features = ["Window", "Document", "Element", "HtmlElement", "HtmlCanvasElement", "HtmlInputElement", "CanvasRenderingContext2d", "DragEvent", "DataTransfer", "Event", "EventTarget", "FileReader", "File", "FileList", "MouseEvent", "CssStyleDeclaration", "DomTokenList", "TextMetrics", "Node"] }

[dev-dependencies]
object = { version = "=0.36.7", features = ["write"] }
