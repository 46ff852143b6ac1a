[package]
name = "s3b"
version = "0.1.0"
edition = "2021"
publish = false

[dependencies]
anyhow = "=1.0.104"
aws-config = "=1.12.0"
aws-credential-types = "=1.3.0"
blake3 = "=1.8.7"
brotli = "=9.0.0"
chrono = "=0.4.45"
clap = { version = "=4.6.7", features = ["cargo"] }
cli-table = "=0.5.0"
colored = "=3.1.1"
futures = "=0.3.34"
gluesql = { version = "=0.20.0", default-features = false, features = ["gluesql-json-storage"] }
indicatif = "=0.18.6"
inquire = "=0.9.4"
object_store = { version = "=0.14.2", features = ["aws"] }
rayon = "=1.12.0"
tokio = { version = "=1.53.2", features = ["macros", "rt-multi-thread"] }
walkdir = "=2.5.0"
