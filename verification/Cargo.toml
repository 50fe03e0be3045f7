[package]
name = "vasak_session_manager"
version = "0.1.0"
edition = "2021"
publish = false

[dependencies]
base64 = "0.22"
serde = { version = "1", features = ["derive"] }
serde_json = "1"
libc = "0.2"
zeroize = "1"
pam = "*"
zbus = "*"
