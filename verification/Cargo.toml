[package]
name = "bookmarks"
version = "0.1.0"
edition = "2021"
publish = false

[dependencies]
axum = "*"
minijinja = { version = "*", features = ["loader"] }
rusqlite = { version = "*", features = ["bundled"] }
serde = { version = "*", features = ["derive"] }
time = { version = "*", features = ["local-offset", "formatting"] }
tokio = { version = "*", features = ["full"] }
