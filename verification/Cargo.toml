[package]
name = "icfpc2024"
version = "0.1.0"
edition = "2021"
publish = false

[dependencies]
num-bigint = "*"
screwsat = "*"
clap = { version = "*", features = ["derive"] }
tokio = { version = "*", features = ["macros", "rt-multi-thread"] }
reqwest = { version = "*", default-features = false }
dotenv = "*"
svg = "*"
