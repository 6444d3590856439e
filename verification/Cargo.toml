[package]
name = "porda"
version = "0.1.0"
edition = "2021"
publish = false

[dependencies]
ashpd = { version = "=0.13.13", features = ["global_shortcuts", "screencast"] }
bytemuck = "=1.25.2"
dirs = "=7.0.0"
futures-util = "=0.3.34"
image = { version = "=0.25.10", default-features = false, features = ["png"] }
ksni = { version = "=0.3.7", features = ["blocking"] }
ort = { version = "=2.0.0-rc.12", default-features = false, features = ["std", "webgpu"] }
pipewire = "=0.10.1"
serde = { version = "=1.0.229", features = ["derive"] }
serde_json = "=1.0.154"
tempfile = "=3.27.0"
tokio = { version = "=1.54.1", features = ["rt", "sync", "time", "macros"] }
tracing = "=0.1.44"
tracing-subscriber = { version = "=0.3.23", features = ["env-filter"] }
wayland-client = "=0.31.15"
wayland-protocols-wlr = { version = "=0.3.12", features = ["client"] }
wgpu = { version = "=24.0.5", default-features = false, features = ["wgsl"] }
