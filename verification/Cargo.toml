[package]
name = "any2cast"
version = "0.1.0"
edition = "2021"
publish = false

[dependencies]
rss = "*"
chrono = "*"
handlebars = "*"
actix-web = "*"
actix-files = "*"
clap = { version = "*", features = ["derive"] }
env_logger = "*"
log = "*"
anyhow = "*"
once_cell = "*"
serde = { version = "*", features = ["derive"] }
serde_json = "*"
