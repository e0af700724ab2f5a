[package]
name = "course_planner"
version = "0.1.0"
edition = "2021"
publish = false

[dependencies]
clap = { version = "*", features = ["derive"] }
reqwest = { version = "*", default-features = false, features = ["blocking", "rustls-tls"] }
select = "*"
serde = { version = "*", features = ["derive"] }
serde_yaml = "*"
