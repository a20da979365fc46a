[package]
name = "storygraph"
version = "0.1.0"
edition = "2021"
publish = false

[dependencies]
serde = { version = "*", features = ["derive"] }
serde_json = "*"
base64 = "*"
url = "*"
uuid = { version = "*", features = ["v4"] }
sensitive-rs = "*"
axum = "*"
tokio = { version = "*", features = ["rt-multi-thread", "macros", "signal", "net"] }
reqwest = { version = "*", default-features = false, features = ["json"] }
tower-http = { version = "*", features = ["cors"] }
dotenv = "*"
