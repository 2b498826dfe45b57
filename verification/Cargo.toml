[package]
name = "parinfer_rust"
version = "0.1.0"
edition = "2021"
publish = false

[dependencies]
cfg-if = "1"
libc = "0.2"
serde = { version = "1", features = ["derive"] }
serde_json = "1"
stdweb = "0.4"
winapi = { version = "0.3", features = ["libloaderapi", "winnt"] }
