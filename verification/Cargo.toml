[package]
name = "lumen"
version = "0.1.0"
edition = "2021"
publish = false

[dependencies]
image = { version = "0.25", default-features = false, features = ["jpeg", "png", "webp"] }
lofty = "*"
dirs = "*"
tokio = { version = "1", features = ["rt-multi-thread"] }
reqwest = { version = "0.12", default-features = false, features = ["rustls-tls"] }
printpdf = "0.7"
pdfium-render = "0.8"
flate2 = "1"
tar = "0.4"
