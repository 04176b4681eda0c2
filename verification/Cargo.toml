[package]
name = "chess"
version = "0.1.0"
edition = "2021"
publish = false

[dependencies]
fastrand = "2"
tinyvec = { version = "1", features = ["rustc_1_55"] }
