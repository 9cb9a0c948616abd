[package]
name = "cwl_mount"
version = "0.1.0"
edition = "2021"
publish = false

[dependencies]
regex = "*"
lru = "*"
chrono = "*"
clap = "*"
fuser = "*"
libc = "*"
tokio = { version = "*", features = ["rt-multi-thread", "sync", "macros", "time"] }
ctrlc = "*"
crossbeam = "*"
futures = "*"
leaky-bucket = "*"
aws-config = "*"
aws-sdk-cloudwatchlogs = "*"
aws-types = "*"
aws-smithy-http = "*"
tracing = "*"
tracing-subscriber = "*"
