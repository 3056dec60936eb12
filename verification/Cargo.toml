[package]
name = "reader-rs"
version = "0.1.0"
edition = "2021"
publish = false

[dependencies]
roxmltree = "=0.21.2"
serde = { version = "=1.0.229", features = ["derive"] }
serde_json = "=1.0.154"
thiserror = "=2.0.21"
tracing = "=0.1.44"
tracing-subscriber = { version = "=0.3.23", features = ["env-filter"] }
anyhow = "=1.0.104"
directories = "=6.0.0"
epub = "=2.1.6"
image = { version = "=0.25.10", default-features = false, features = ["png", "jpeg", "gif", "webp"] }
resvg = "=0.49.0"
cosmic-text = "=0.19.0"
iced = { version = "=0.14.0", default-features = false, features = ["tiny-skia", "image", "tokio", "x11"] }
