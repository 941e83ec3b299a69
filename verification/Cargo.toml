[package]
name = "chotto"
version = "0.1.0"
edition = "2021"
publish = false

[dependencies]
fontdue = "*"
rayon = "*"
toml = "*"
serde = { version = "*", features = ["derive"] }
winapi = { version = "*", features = ["winuser"] }
png = "*"
