[package]
name = "ks_match"
version = "0.1.0"
edition = "2021"
publish = false

[dependencies]
rdf = "0.1.4"
regex = "1"
clap = { version = "3", features = ["derive"] }
