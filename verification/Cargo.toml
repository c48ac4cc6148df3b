[package]
name = "kumori"
version = "0.1.0"
edition = "2021"
publish = false

[dependencies]
anyhow = "*"
aws-config = "*"
aws_lambda_events = "*"
aws-sdk-s3 = "*"
fast_image_resize = "*"
futures = "*"
image = "=0.24.9"
lambda_runtime = "*"
reqwest = { version = "*", default-features = false }
serde = { version = "*", features = ["derive"] }
serde_json = "*"
tokio = { version = "*", features = ["full"] }
tracing = "*"
tracing-subscriber = "*"
