[package]
name = "q1fs"
version = "0.1.0"
edition = "2021"
publish = false

[dependencies]
base64 = "=0.23.1"
chacha20 = { version = "=0.10.2", features = ["xchacha"] }
getrandom = "=0.4.3"
libc = "=0.2.190"
reqwest = { version = "=0.13.5", default-features = false, features = ["blocking"] }
serde = { version = "=1.0.229", features = ["derive"] }
serde_json = "=1.0.151"
sha2 = "=0.11.0"
