[package]
name = "isomorphic_graph_creation"
version = "0.1.0"
edition = "2021"
publish = false

[dependencies]
num = "0.4"
rayon = "1"
rustworkx-core = "*"

[dev-dependencies]
rand = "0.8"
