[package]
name = "kept"
version = "0.1.0"
edition = "2021"
publish = false

[dependencies]
base64 = "=0.22.1"
chrono = "=0.4.45"
dirs = "5"
gl = "0.14"
glutin = "0.32"
glutin-winit = "0.5"
html5ever = "=0.26.0"
markup5ever_rcdom = "=0.2.0"
raw-window-handle = "0.6"
rusqlite = { version = "0.31", features = ["bundled"] }
serde = { version = "=1.0.229", features = ["derive"] }
serde_json = { version = "=1.0.154", features = ["preserve_order"] }
skia-safe = { version = "*", features = ["gl"] }
uuid = { version = "=1.29.0", features = ["v4", "v7"] }
winit = "0.30"
