[package]
name = "binary2treemap"
version = "0.1.0"
edition = "2021"
publish = false

[dependencies]
addr2line = "*"
object = "*"
clap = { version = "*", features = ["derive"] }
serde = { version = "*", features = ["derive"] }
serde_derive = "*"
serde_json = "*"
axum = "*"
tokio = { version = "*", features = ["rt", "net"] }
handlebars = "*"
syntect = { version = "*", default-features = false, features = ["default-fancy"] }
