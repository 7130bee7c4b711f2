[package]
name = "code_lexer"
version = "0.1.0"
edition = "2021"
publish = false

[dependencies]
rustpython-parser = "*"
serde = { version = "1", features = ["derive"] }
