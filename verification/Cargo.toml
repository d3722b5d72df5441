[package]
name = "mangobar"
version = "0.1.0"
edition = "2021"
publish = false

[dependencies]
gtk4 = "*"
gtk4-layer-shell = "*"
libc = "0.2"
tokio = { version = "1", features = ["rt", "time", "process", "sync", "macros"] }
wayland-client = "0.31"
wayland-scanner = "0.31"
