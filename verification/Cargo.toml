[package]
name = "gquest_core"
version = "0.1.0"
edition = "2021"
publish = false

[dependencies]
regex = "1"
topo_sort = "*"
indexmap = "2"
serde = { version = "1", features = ["derive"] }
serde_json = "1"
thiserror = "2"
log = "0.4"
env_logger = "*"
is_executable = "*"
tabled = "*"
tokio = { version = "1", features = ["rt-multi-thread", "macros", "process", "io-util", "sync"] }
tokio-stream = "*"
sqlx = { version = "0.8", default-features = false, features = ["runtime-tokio", "sqlite", "postgres", "migrate"] }
