[package]
name = "handel"
version = "0.1.0"
edition = "2021"
publish = false

[dependencies]
aws-config = "*"
aws-sdk-s3 = "*"
chrono = "*"
clap = "*"
http = "*"
log = "*"
regex = "*"
reqwest = { version = "*", default-features = false }
serde = { version = "*", features = ["derive"] }
serde_json = "*"
serde_yaml = "*"
shellexpand = "*"
stderrlog = "*"
tempfile = "*"
tokio = { version = "*", features = ["macros", "rt-multi-thread", "process", "io-util"] }
zip = { version = "*", default-features = false, features = ["deflate"] }
