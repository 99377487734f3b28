[package]
name = "packcdc"
version = "0.1.0"
edition = "2021"

[dependencies]
colored = "2"
rand = { version = "0.8", features = ["small_rng"] }
