[package]
name = "hvisor_device_tree_tool"
version = "0.1.0"
edition = "2021"
publish = false

[dependencies]
clap = { version = "4", features = ["derive"] }
indexmap = "2"
petgraph = "0.6"
nom = "7"
