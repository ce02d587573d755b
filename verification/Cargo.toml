[package]
name = "gc_email_validator"
version = "0.1.0"
edition = "2021"
publish = false

[dependencies]
idna = "1"
url = "2"
sha2 = "0.10"
serde = { version = "1", features = ["derive"] }
serde_json = "1"
serde_yaml = "0.9"
csv = "1"
thiserror = "2"
lambda_http = "*"
tokio = { version = "1", features = ["macros", "rt-multi-thread"] }
