[package]
name = "simple_nav"
version = "0.1.0"
edition = "2021"
publish = false

[dependencies]
rstar = "0.12"
geo = "0.29"
osmpbf = "0.3"
serde = { version = "1", features = ["derive"] }
serde_json = "1"
axum = "0.7"
tokio = { version = "1", features = ["rt-multi-thread", "macros", "net"] }
tower-http = { version = "0.5", features = ["fs"] }
