[package]
name = "startrack"
version = "0.1.0"
edition = "2021"
publish = false

[dependencies]
uuid = { version = "=1.27.0", features = ["v4"] }
tokio = { version = "=1.53.2", features = ["rt-multi-thread", "macros"] }
octocrab = "=0.41.2"
reqwest = { version = "=0.13.5", features = ["json"] }
gitlab = "=0.1904.0"
serde = { version = "1", features = ["derive"] }
serde_json = "1"
