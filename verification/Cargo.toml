[package]
name = "single_object"
version = "0.1.0"
edition = "2021"
publish = false

[dependencies]
apache-avro = "0.17"
digest = "0.10"
serde = { version = "1", features = ["derive"] }
tokio = { version = "1", features = ["macros", "rt"] }
uuid = { version = "1", features = ["serde"] }
