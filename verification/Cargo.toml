[package]
name = "reaction_roles"
version = "0.1.0"
edition = "2021"
publish = false

[dependencies]
serde = { version = "=1.0.229", features = ["derive"] }
serde_json = "=1.0.151"
serenity = { version = "=0.11.7", features = ["collector"] }
tokio = { version = "=1.53.2", features = ["macros", "rt-multi-thread"] }
dotenv = "=0.15.0"
tracing = "=0.1.44"
