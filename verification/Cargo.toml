[package]
name = "steplisp"
version = "0.1.0"
edition = "2021"
publish = false

[dependencies]
rust_lisp = "*"
rustc_apfloat = "*"
serde = { version = "1", features = ["derive"] }
