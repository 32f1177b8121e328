[package]
name = "seam_carver"
version = "0.1.0"
edition = "2021"
publish = false

[dependencies]
clap = "2"
image = { version = "0.23", default-features = false, features = ["jpeg", "png"] }
