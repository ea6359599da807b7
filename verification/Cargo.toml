[package]
name = "cable_editor"
version = "0.1.0"
edition = "2021"
publish = false

[dependencies]
uuid = { version = "=1.29.0", features = ["v4"] }
serde_json = "=1.0.154"
web-sys = { version = "=0.3.107", features = ["DomParser", "Document", "Element", "HtmlCollection", "SupportedType"] }
base64 = "0.22"
