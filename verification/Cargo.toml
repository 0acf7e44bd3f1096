[package]
name = "fleet_planner"
version = "0.1.0"
edition = "2021"
publish = false

[dependencies]
fixedbitset = "*"
fnv = "*"
hungarian = "*"
log = "*"
serde = { version = "*", features = ["derive"] }
serde_json = "*"
simplelog = "*"
failure = "*"
