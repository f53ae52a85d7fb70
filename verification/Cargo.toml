[package]
name = "cipollino"
version = "0.1.0"
edition = "2021"
publish = false

[dependencies]
glam = "*"
serde = { version = "*", features = ["derive"] }
serde_json = "*"
directories = "*"
pathdiff = "*"
unique-type-id = "*"
