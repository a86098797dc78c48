[package]
name = "logtail"
version = "0.1.0"
edition = "2021"
publish = false

[dependencies]
dotenv = "*"
linemux = "*"
log = "*"
notify = "*"
serde = { version = "*", features = ["derive"] }
tokio = { version = "*", features = ["rt-multi-thread", "macros", "sync"] }
