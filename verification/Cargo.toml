[package]
name = "pdx"
version = "0.1.0"
edition = "2021"
publish = false

[dependencies]
arabic_reshaper = "*"
unicode-bidi = "*"
chrono = "*"
image = "*"
printpdf = "0.7"
serde = { version = "*", features = ["derive"] }
serde_json = "*"
egui = "*"
