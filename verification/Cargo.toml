[package]
name = "coursework"
version = "0.1.0"
edition = "2021"
publish = false

[dependencies]
kalosm = { version = "0.4", default-features = false, features = ["language"] }
tarpc = { version = "0.36", features = ["full"] }
tokio = { version = "1", features = ["full"] }
serde = { version = "1", features = ["derive"] }
