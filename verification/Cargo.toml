[package]
name = "order_book"
version = "0.1.0"
edition = "2021"
publish = false

[dependencies]
chrono = "0.4"
clap = { version = "4", features = ["derive"] }
crossterm = "0.25"
eyre = "0.6"
itertools = "0.10"
serde_json = "1"
tokio = { version = "1", features = ["macros", "rt-multi-thread"] }
tui = "0.19"
websockets = "0.3"
