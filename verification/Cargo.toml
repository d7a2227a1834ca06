[package]
name = "search_engine"
version = "0.1.0"
edition = "2021"
publish = false

[dependencies]
unidecode = "*"
postcard = { version = "*", default-features = false, features = ["alloc"] }
rusqlite = { version = "*", features = ["bundled"] }
r2d2 = "*"
r2d2_sqlite = "*"
serde = { version = "*", features = ["derive"] }
anyhow = "*"
axum = "0.6"
tokio = { version = "*", features = ["full"] }
reqwest = { version = "*", default-features = false }
scraper = "*"
url = "*"
