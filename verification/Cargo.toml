[package]
name = "jlh"
version = "0.1.0"
edition = "2021"
publish = false

[dependencies]
clap = "2"
prettytable-rs = "0.10"
rayon = "1"
serde = { version = "1", features = ["derive"] }
serde_json = "1"
