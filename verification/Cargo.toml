[package]
name = "pdfwatch"
version = "0.1.0"
edition = "2021"
publish = false

[dependencies]
html-escape = "*"
reqwest = { version = "*", default-features = false }
serde = { version = "*", features = ["derive"] }
serde_json = "*"
tokio = { version = "*", features = ["rt-multi-thread", "macros", "time"] }
