[package]
name = "promql_streaming"
version = "0.1.0"
edition = "2021"
publish = false

[dependencies]
datafusion = { version = "=55.2.0", default-features = false }
futures = "=0.3.34"
hashbrown = "=0.17.1"
log = "=0.4.35"
promql-parser = "=0.11.1"
tokio = { version = "=1.54.1", features = ["macros", "rt", "time"] }
