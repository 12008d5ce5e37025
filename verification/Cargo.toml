[package]
name = "rain_watch"
version = "0.1.0"
edition = "2021"
publish = false

[dependencies]
rand = "=0.8.8"
tokio = { version = "=1.54.1", features = ["rt-multi-thread", "macros", "fs", "sync", "time"] }
teloxide = { version = "=0.12.2", features = ["macros"] }
takecell = "=0.1.1"
dptree = "=0.3.0"
reqwest = { version = "=0.11.27", features = ["json"] }
url = "=2.5.8"
fantoccini = "=0.19.3"
serde = { version = "=1.0.229", features = ["derive"] }
config = { version = "=0.13.4", default-features = false }
dotenv = "=0.15.0"
log = "=0.4.34"
pretty_env_logger = "=0.5.0"
