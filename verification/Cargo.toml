[package]
name = "tp_planner"
version = "0.1.0"
edition = "2021"
publish = false

[dependencies]
priority-queue = "*"
serde = { version = "*", features = ["derive"] }
serde_yaml = "*"
restson = "*"
argparse = "*"
