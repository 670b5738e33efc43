[package]
name = "ows_runtime"
version = "0.1.0"
edition = "2021"
publish = false

[dependencies]
async-trait = "0.1"
chrono = "0.4"
clap = { version = "4", features = ["derive"] }
cron = "*"
opentelemetry-proto = { version = "*", features = ["gen-tonic", "logs", "trace", "metrics"] }
rand = "0.8"
redis = { version = "*", features = ["tokio-comp"] }
regex = "1"
reqwest = { version = "0.12", default-features = false, features = ["json"] }
rusqlite = { version = "*", features = ["bundled"] }
serde = { version = "1", features = ["derive"] }
serde_json = "1"
serde_yaml = "0.9"
serverless_workflow_core = "1.0.0-alpha6.3"
thiserror = "*"
tokio = { version = "1", features = ["full"] }
tokio-postgres = "0.7"
tonic = { version = "*", features = ["transport"] }
tracing-subscriber = { version = "0.3", features = ["env-filter"] }
uuid = { version = "1", features = ["v4"] }
