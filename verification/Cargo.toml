[package]
name = "sql_entity_graph"
version = "0.1.0"
edition = "2021"
publish = false

[dependencies]
cargo_toml = "0.14"
clap = { version = "3", features = ["derive", "env"] }
clap-cargo = "0.8"
eyre = "0.6"
owo-colors = "3"
serde = { version = "1", features = ["derive"] }
tracing = "0.1"
