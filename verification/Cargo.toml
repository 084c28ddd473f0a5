[package]
name = "customer_analyzer"
version = "0.1.0"
edition = "2021"
publish = false

[dependencies]
calamine = "*"
chrono = "0.4"
dirs = "*"
rayon = "1"
rust_xlsxwriter = "*"
serde = { version = "1", features = ["derive"] }
serde_json = "1"
tokio = { version = "1", features = ["rt"] }
uuid = { version = "1", features = ["v4"] }

[dev-dependencies]
regex-lite = "0.1"
