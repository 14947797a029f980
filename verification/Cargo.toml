[package]
name = "flux_validator"
version = "0.1.0"
edition = "2021"
publish = false

[dependencies]
clap = { version = "3.2", features = ["derive", "env"] }
clap_complete = "3.2"
eyre = "0.6"
futures = "0.3"
glob = "0.3"
serde = { version = "1.0", features = ["derive"] }
serde-query = "0.1"
serde_yaml = "0.8"
termtree = "0.4"
tokio = { version = "1", features = ["macros", "rt-multi-thread"] }
