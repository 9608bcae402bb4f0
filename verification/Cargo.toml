[package]
name = "github-label-feed"
version = "0.1.0"
edition = "2021"
publish = false

[dependencies]
anyhow = "=1.0.104"
atom_syndication = "=0.9.1"
chrono = "=0.4.45"
futures = "=0.3.34"
futures-retry = "=0.5.0"
graphql_client = "=0.9.0"
reqwest = { version = "=0.10.10", features = ["json"] }
rss = "=1.9.0"
serde = { version = "=1.0.229", features = ["derive"] }
smol = { version = "=0.1.18", features = ["tokio02"] }
sqlx = { version = "=0.3.5", default-features = false, features = ["macros", "runtime-async-std", "sqlite"] }
structopt = "=0.3.26"
tracing = "=0.1.44"
tracing-subscriber = "=0.2.25"
url = "=2.5.8"
