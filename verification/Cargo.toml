[package]
name = "peas_rf_cp"
version = "0.1.0"
edition = "2021"
publish = false

[dependencies]
bincode = "1"
rand = "0.7"
serde = { version = "1", features = ["derive"] }
log = "0.4"
clap = "2"
chrono = "0.4"
flexi_logger = "*"
cursive = "*"
pnet = "*"
