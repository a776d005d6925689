[package]
name = "emskin"
version = "0.1.0"
edition = "2021"
publish = false

[dependencies]
serde = { version = "1", features = ["derive"] }
serde_json = "1"
tracing = "0.1"
tracing-subscriber = { version = "0.3", features = ["env-filter"] }
cosmic-text = "*"
smithay = { version = "*", default-features = false, features = ["wayland_frontend", "desktop", "renderer_gl", "xwayland"] }
