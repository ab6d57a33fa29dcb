[package]
name = "proxy_cache"
version = "0.1.0"
edition = "2021"
publish = false

[dependencies]
actix-web = { version = "4", default-features = false, features = ["macros"] }
config = { version = "*", default-features = false, features = ["toml"] }
reqwest = { version = "*", default-features = false }
tokio = { version = "1", default-features = false, features = ["sync", "time", "rt", "macros"] }
