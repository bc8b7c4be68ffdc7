[package]
name = "ccj_postprocess"
version = "0.1.0"
edition = "2021"
publish = false

[dependencies]
regex = "*"
relative-path = "*"
serde = { version = "*", features = ["derive"] }
serde_json = "*"
clap = "*"
rayon = "*"
skim = "*"
