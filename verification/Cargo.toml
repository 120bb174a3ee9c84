[package]
name = "rotation_renderer"
version = "0.1.0"
edition = "2021"
publish = false

[dependencies]
actix-cors = "0.6"
actix-files = "0.6"
actix-web = { version = "4", default-features = false, features = ["macros"] }
async-std = "1"
bytemuck = { version = "1", features = ["derive"] }
colored = "2"
flume = "0.11"
rand = "0.8"
serde = { version = "1", features = ["derive"] }
tokio = { version = "1", features = ["rt", "rt-multi-thread", "macros", "sync"] }
wgpu = "0.16"
