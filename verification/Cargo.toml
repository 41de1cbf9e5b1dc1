[package]
name = "wishlist_watch"
version = "0.1.0"
edition = "2021"
publish = false

[dependencies]
anyhow = "*"
chrono = "*"
clap = { version = "*", features = ["derive"] }
dotenv = "*"
env_logger = "*"
envy = "*"
futures = "*"
headless_chrome = "*"
log = "*"
serde = { version = "*", features = ["derive"] }
tokio = { version = "*", features = ["macros", "rt-multi-thread"] }
url = "*"
webhook = "*"
