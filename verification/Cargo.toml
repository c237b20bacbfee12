[package]
name = "xlsx_searcher"
version = "0.1.0"
edition = "2021"
publish = false

[dependencies]
memchr = "=2.8.3"
quick-xml = "=0.37.5"
regex = "=1.13.1"
encoding_rs = "=0.8.44"
serde = { version = "=1.0.229", features = ["derive"] }
serde_json = "=1.0.154"
serde_yaml = "=0.9.34"
axum = "=0.7.9"
tokio = { version = "=1.54.1", features = ["full"] }
tower-http = { version = "=0.6.11", features = ["cors"] }
r2d2 = "=0.8.10"
r2d2_sqlite = { version = "=0.25.0", features = ["bundled"] }
rusqlite = { version = "=0.32.1", features = ["bundled"] }
calamine = "=0.26.1"
zip = { version = "~2.2", default-features = false, features = ["deflate"] }
walkdir = "=2.5.0"
dirs = "=5.0.1"
open = "=5.4.5"
rayon = "=1.12.0"
include_dir = "=0.7.4"
indexmap = "=2.14.2"
arboard = { version = "=3.7.0", default-features = false }
