[package]
name = "rule_graph"
version = "0.1.0"
edition = "2021"
publish = false

[dependencies]
promql = "=0.4.2"
multimap = "=0.10.1"
clap = { version = "=3.2.25", features = ["derive"] }
reqwest = "=0.11.27"
serde = { version = "=1.0.229", features = ["derive"] }
serde_json = "=1.0.154"
tokio = { version = "=1.54.1", features = ["macros", "rt-multi-thread"] }
