[package]
name = "inox2d"
version = "0.1.0"
edition = "2021"
publish = false

[dependencies]
indextree = "4"
json = "0.12"
nom = "7"
owo-colors = "3"
serde = { version = "1", features = ["derive"] }
serde_json = "1"
serde_indextree = "*"
image = { version = "0.24", default-features = false, features = ["png", "tga"] }
