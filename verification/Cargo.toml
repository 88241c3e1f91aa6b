[package]
name = "bus_raptor"
version = "0.1.0"
edition = "2021"
publish = false

[dependencies]
bitvec = "1"
serde = { version = "1", features = ["derive"] }
serde_json = "1"
csv = "1"
clap = "4"
geojson = "0.24"
