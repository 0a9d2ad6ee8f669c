[package]
name = "tokimo-package-fileparser"
version = "0.1.0"
edition = "2021"
publish = false

[dependencies]
csv = "1"
encoding_rs = "0.8"
image = { version = "0.25", default-features = false, features = ["png"] }
lopdf = "*"
office_oxide = "*"
pdf-extract = "*"
serde = { version = "1", features = ["derive"] }
serde_json = "1"
thiserror = "2"
zip = "*"

[dev-dependencies]
tempfile = "3"
