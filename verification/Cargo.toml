[package]
name = "turbolay_graph"
version = "0.1.0"
edition = "2021"
publish = false

[dependencies]
bytes = "1"
roaring = "*"
opendata-common = "*"
