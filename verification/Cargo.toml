[package]
name = "redlib_ops"
version = "0.1.0"
edition = "2021"
publish = false

[dependencies]
fastrand = "2"
hyper = "0.14"
route-recognizer = "0.3"
serde_json = "1"
time = { version = "0.3", features = ["formatting"] }
tokio = { version = "1", features = ["rt"] }
