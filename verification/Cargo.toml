[package]
name = "projects_lib"
version = "0.1.0"
edition = "2021"
publish = false

[dependencies]
kalosm = { version = "*", default-features = false, features = ["language"] }
tarpc = { version = "*", features = ["full"] }
tokio = { version = "1", features = ["full"] }
