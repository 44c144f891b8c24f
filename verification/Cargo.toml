[package]
name = "discord-mods-bot"
version = "0.1.0"
edition = "2021"
publish = false

[dependencies]
serenity = "0.10"
sqlx = { version = "0.5", features = ["runtime-tokio-rustls", "postgres", "chrono"] }
reqwest = { version = "0.11", features = ["json"] }
tokio = { version = "1", features = ["full"] }
tracing = "0.1"
tracing-subscriber = "0.2"
envy = "0.4"
futures = "0.3"
serde = { version = "1", features = ["derive"] }
indexmap = "1"
strip-ansi-escapes = "0.1"
diesel = { version = "1.4", features = ["postgres"] }
diesel_migrations = "1.4"
