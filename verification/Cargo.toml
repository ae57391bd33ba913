[package]
name = "sonicfusion"
version = "0.1.0"
edition = "2021"
publish = false

[dependencies]
async-stream = "*"
datafusion = { version = "*", default-features = false }
futures = "*"
hound = "*"
tempfile = "*"
thiserror = "*"
tokio = { version = "*", features = ["macros", "rt-multi-thread"] }
