[package]
name = "taskgraph"
version = "0.1.0"
edition = "2021"
publish = false

[dependencies]
actix-cors = "0.5"
actix-identity = "0.3"
actix-rt = "1"
actix-service = "1"
actix-web = "3"
chrono = { version = "0.4", features = ["serde"] }
chrono-tz = { version = "0.5", features = ["serde"] }
diesel = { version = "1.4", features = ["postgres", "r2d2", "chrono", "uuidv07"] }
dotenv = "0.15"
env_logger = "0.8"
futures = "0.3"
once_cell = "1"
rand = "0.8"
regex = "1"
rust-argon2 = "0.8"
sendgrid = "0.17"
serde = { version = "1", features = ["derive"] }
serde_json = "1"
sparkpost = "0.5"
uuid = { version = "0.8", features = ["serde", "v4"] }
