[package]
name = "semcast"
version = "0.1.0"
edition = "2021"
publish = false

[dependencies]
async-trait = "0.1"
clap = { version = "4", default-features = false, features = ["std", "derive", "env", "help", "usage", "error-context"] }
futures = "0.3"
pgwire = { version = "=0.42.1", default-features = false, features = ["server-api"] }
reqwest = { version = "0.12", default-features = false, features = ["json"] }
serde = { version = "1", features = ["derive"] }
serde_json = "=1.0.154"
sqlparser = "=0.62.0"
thiserror = "2"
tokio = { version = "1", features = ["rt-multi-thread", "macros", "sync", "net", "signal", "time"] }
tracing = "0.1"
