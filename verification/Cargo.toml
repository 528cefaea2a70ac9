[package]
name = "kermin_mod_manager"
version = "0.1.0"
edition = "2021"
publish = false

[dependencies]
base64 = "0.22"
futures-util = "0.3"
regex = "1"
reqwest = { version = "0.12", default-features = false, features = ["stream", "rustls-tls"] }
serde = { version = "1", features = ["derive"] }
serde_json = "1"
sevenz-rust2 = "*"
tokio = { version = "1", features = ["rt", "time"] }
unrar = "0.5"
zip = "2"
