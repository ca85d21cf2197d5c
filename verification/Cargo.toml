[package]
name = "dupekit"
version = "0.1.0"
edition = "2021"
publish = false

[dependencies]
fclones = "0.35"
rusqlite = { version = "*", features = ["bundled"] }
trash = "*"
dirs = "*"
