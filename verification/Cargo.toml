[package]
name = "gozo"
version = "0.1.0"
edition = "2021"
publish = false

[dependencies]
argh = "*"
async-nats = "*"
bytes = "*"
ctrlc = "*"
dotenv = "*"
futures = "*"
tokio = { version = "*", features = ["full"] }
