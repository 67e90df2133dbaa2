[package]
name = "stm_query_builder"
version = "0.1.0"
edition = "2021"
publish = false

[dependencies]
serde = { version = "1", features = ["derive"] }
serde_json = "1"
iced = { version = "0.13", default-features = false, features = ["tiny-skia", "tokio"] }
rfd = "0.15"
tokio = { version = "1", features = ["rt"] }
open = "5"
