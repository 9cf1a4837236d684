[package]
name = "angelo"
version = "0.3.0"
edition = "2021"
publish = false
rust-version = "1.95"

[dependencies]
anyhow = "1"
clap = { version = "4", features = ["derive"] }
env_logger = { version = "0.11", default-features = false, features = ["auto-color", "humantime"] }
indicatif = { version = "*", default-features = false }
log = { version = "0.4", features = ["std"] }
roxmltree = "*"
ruff_python_ast = "<=0.0.6"
ruff_python_parser = "<=0.0.6"
ruff_text_size = "<=0.0.6"
serde = { version = "1", features = ["derive"] }
tokio = { version = "1", features = ["rt", "time", "net"] }
toml = "*"
turso = { version = "*", default-features = false }
