[package]
name = "wellington"
version = "0.1.0"
edition = "2021"
publish = false

[dependencies]
pulldown-cmark = "0.1"
url = "*"
handlebars = "*"
chrono = "*"
getopts = "*"
serde = { version = "*", features = ["derive"] }
serde_json = "*"
