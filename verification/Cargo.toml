[package]
name = "unbag_rs"
version = "0.1.0"
edition = "2021"
publish = false

[dependencies]
rosbag = "*"
clap = { version = "*", features = ["derive"] }
