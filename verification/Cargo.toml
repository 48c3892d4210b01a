[package]
name = "orb_vol"
version = "11.0.0"
edition = "2021"
publish = false

[dependencies]
chrono = "0.4"
chrono-tz = "0.10"
clap = { version = "4", features = ["derive"] }
rand = "0.8"
rayon = "1"
