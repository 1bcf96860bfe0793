[package]
name = "prototype"
version = "0.1.0"
edition = "2021"
publish = false

[dependencies]
random_color = "*"
actix-web = "*"
actix-cors = "*"

[dev-dependencies]
regex = "*"
