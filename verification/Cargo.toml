[package]
name = "grab_github"
version = "0.1.0"
edition = "2021"
publish = false

[dependencies]
base64 = "0.22"
glob-match = "0.2"
futures = "0.3"
reqwest = { version = "0.12", default-features = false }
serde = { version = "1", features = ["derive"] }
serde_json = "1"
tokio = { version = "1", features = ["fs", "rt", "macros", "rt-multi-thread"] }
const_format = "0.2"
