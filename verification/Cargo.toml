[package]
name = "wikipath"
version = "0.1.0"
edition = "2021"
publish = false

[dependencies]
regex = "*"
log = "*"
once_cell = "*"
serde = { version = "*", features = ["derive"] }
rusqlite = { version = "*", features = ["bundled"] }
reqwest = { version = "*", features = ["blocking"] }
rocket = "*"
simplelog = "*"
