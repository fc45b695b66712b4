[package]
name = "lox"
version = "0.1.0"
edition = "2021"
publish = false

[dependencies]
anyhow = "*"
thiserror = "*"
chrono = "*"
colored = "*"
num_enum = "*"
ordered-float = "*"
strum = { version = "*", features = ["derive"] }
tabled = "*"
