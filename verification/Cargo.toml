[package]
name = "book_search"
version = "0.1.0"
edition = "2021"
publish = false

[dependencies]
axum = "*"
tokio = { version = "*", features = ["macros", "rt-multi-thread", "net"] }
rusqlite = { version = "*", features = ["bundled"] }
serde = "*"
serde_derive = "*"
