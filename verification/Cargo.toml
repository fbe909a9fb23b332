[package]
name = "order_book_server"
version = "0.1.0"
edition = "2021"
publish = false

[dependencies]
alloy = { version = "1", default-features = false, features = ["std"] }
axum = { version = "0.8", default-features = false, features = ["http1", "tokio"] }
chrono = { version = "0.4", default-features = false, features = ["std", "serde"] }
futures-util = { version = "0.3", default-features = false, features = ["std", "sink"] }
log = "0.4"
notify = { version = "8", default-features = false }
rayon = "1"
reqwest = { version = "0.12", default-features = false }
serde = { version = "1", features = ["derive"] }
serde_json = "1"
tokio = { version = "1", features = ["macros", "rt-multi-thread", "sync", "time", "net", "fs"] }
yawc = { version = "0.2", default-features = false, features = ["axum"] }
