[package]
name = "convert_office_images"
version = "0.1.0"
edition = "2021"
publish = false

[dependencies]
zip = "*"
quick-xml = "*"
image = "0.24"
base64 = "*"
serde = { version = "*", features = ["derive"] }
serde_json = "*"
