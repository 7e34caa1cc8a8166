[package]
name = "inference_engine"
version = "0.1.0"
edition = "2021"
publish = false

[dependencies]
regex = "*"
petgraph = "*"
egui_graphs = "*"
egui = "*"
