[package]
name = "dqr"
version = "0.1.0"
edition = "2021"
publish = false

[dependencies]
actix-web = "4"
csv = "1"
dotenv = "0.15"
env_logger = "0.10"
jsonpath_lib = "0.3"
log = "0.4"
regex = "1"
serde = { version = "1", features = ["derive"] }
serde_json = "1"
thiserror = "1"
