[package]
name = "vajra"
version = "0.1.0"
edition = "2021"
publish = false

[dependencies]
arrow-flight = "=59.3.2"
async-stream = "=0.3.6"
async-trait = "=0.1.92"
bytes = "=1.12.1"
chrono = "=0.4.45"
clap = { version = "=4.6.7", features = ["derive"] }
datafusion = { version = "=55.2.0", default-features = false, features = ["datetime_expressions"] }
futures = "=0.3.34"
indexmap = "=2.14.2"
log = "=0.4.35"
object_store = "=0.13.2"
prost = "=0.14.4"
rdkafka = "=0.39.0"
serde = { version = "=1.0.229", features = ["derive"] }
serde_json = "=1.0.154"
tempfile = "=3.27.0"
tokio = { version = "=1.54.1", features = ["full"] }
tonic = "=0.14.9"
url = "=2.5.8"
uuid = { version = "=1.29.0", features = ["v4"] }
