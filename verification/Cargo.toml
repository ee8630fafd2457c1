[package]
name = "flightpath"
version = "0.1.0"
edition = "2021"
publish = false

[dependencies]
actix-web = { version = "4", default-features = false, features = ["macros"] }
itertools = "0.14"
serde = { version = "1", features = ["derive"] }
serde_json = "1"
