[package]
name = "service_world"
version = "0.1.0"
edition = "2021"
publish = false

[dependencies]
ansi_term = "*"
clap = "4"
futures = "0.3"
handlebars = "*"
hyper = { version = "0.14", features = ["client", "http1", "tcp"] }
rocket = "0.5"
serde = { version = "1", features = ["derive"] }
serde_json = "1"
tabwriter = "*"
tokio = { version = "1", features = ["rt", "net", "time"] }
toml = "*"
