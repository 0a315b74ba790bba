[package]
name = "workflow_core"
version = "0.1.0"
edition = "2021"
publish = false

[dependencies]
petgraph = "*"
serde = { version = "1", features = ["derive"] }
serde_json = "1"
time = { version = "0.3", features = ["formatting"] }
toml = "*"
thiserror = "*"
anyhow = "1"
clap = { version = "4", features = ["derive"] }
signal-hook = "*"
nix = { version = "*", features = ["signal", "process"] }
tokio = { version = "1", features = ["full"] }
tokio-util = "*"
async-trait = "*"
tracing = "*"
tracing-subscriber = { version = "*", features = ["env-filter", "fmt"] }

[dev-dependencies]
tempfile = "*"
