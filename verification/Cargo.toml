[package]
name = "wavefold"
version = "0.1.0"
edition = "2021"
publish = false

[dependencies]
anyhow = "1"
bytemuck = { version = "1", features = ["derive"] }
clap = { version = "4", default-features = false, features = ["std", "derive", "help", "usage", "error-context"] }
iced = { version = "0.14", default-features = false, features = ["tokio", "tiny-skia", "x11"] }
image = { version = "0.25", default-features = false, features = ["png"] }
pollster = "0.4"
rayon = "1"
rfd = { version = "0.15", default-features = false, features = ["xdg-portal", "tokio"] }
serde = { version = "1", features = ["derive"] }
serde_json = "1"
tokio = { version = "1", features = ["rt-multi-thread", "sync", "net", "io-util", "time"] }
tokio-stream = "0.1"
tracing = "0.1"
tracing-subscriber = { version = "0.3", default-features = false, features = ["fmt", "env-filter"] }
wgpu = { version = "30", default-features = false, features = ["std", "wgsl", "vulkan"] }

[dev-dependencies]
rustfft = "6"
