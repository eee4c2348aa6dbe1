[package]
name = "llm_from_scratch"
version = "0.1.0"
edition = "2021"
publish = false

[dependencies]
ndarray = "0.15"
rand = "0.8"
rand_distr = "0.4"
serde = { version = "1", features = ["derive"] }
serde_json = "1"
axum = "0.7"
tokio = { version = "1", features = ["full"] }
tower-http = { version = "0.5", features = ["cors"] }
