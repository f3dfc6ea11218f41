[package]
name = "pdf_summarizer"
version = "0.1.0"
edition = "2021"
publish = false

[dependencies]
pdf-extract = "*"
uuid = { version = "1", features = ["v4"] }
chrono = "0.4"
axum = { version = "0.6", features = ["multipart"] }
tokio = { version = "1", features = ["full"] }
tower-http = { version = "0.4", features = ["fs"] }
serde = { version = "1", features = ["derive"] }
serde_json = "1"
