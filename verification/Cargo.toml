[package]
name = "taskchain"
version = "0.1.0"
edition = "2021"
publish = false

[dependencies]
handlebars = "*"
interactive_process = "*"
itertools = "*"
serde = { version = "*", features = ["derive"] }
serde_json = "*"
serde_yaml = "*"
threadpool = "*"
