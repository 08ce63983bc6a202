[package]
name = "quizmark"
version = "0.1.0"
edition = "2021"
publish = false

[dependencies]
anyhow = "=1.0.104"
clap = { version = "=4.6.7", features = ["derive"] }
image = { version = "=0.25.8", default-features = false, features = ["png"] }
imageproc = { version = "=0.25.1", default-features = false }
lopdf = "=0.46.0"
poppler = "=0.6.0"
rand = "=0.9.5"
rxing = { version = "=0.9.3", default-features = false, features = ["image", "encoding_rs", "decoders", "encoders", "pdf417"] }
serde = { version = "=1.0.229", features = ["derive"] }
serde_json = "=1.0.154"
