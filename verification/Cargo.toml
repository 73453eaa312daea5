[package]
name = "gopher_netplay"
version = "0.1.0"
edition = "2021"
publish = false

[dependencies]
async-trait = "0.1"
axum = { version = "0.8", features = ["ws"] }
futures = "0.3"
ggrs = "*"
matchbox_protocol = { version = "0.14", features = ["json"] }
matchbox_signaling = "0.14"
matchbox_socket = "0.14"
postcard = { version = "1", features = ["use-std"] }
rand = "0.9"
sdl3-sys = "*"
serde = { version = "1", features = ["derive"] }
serde_json = "1"
sha2 = "0.10"
tokio = { version = "1", features = ["rt", "sync"] }
uuid = "1"
