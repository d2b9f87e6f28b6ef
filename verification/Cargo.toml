[package]
name = "cellcast"
version = "0.1.0"
edition = "2021"
publish = false

[dependencies]
geo = "=0.33.1"
imgal = "=0.4.0"
ndarray = "=0.17.2"
rayon = "=1.12.0"
reqwest = { version = "0.12", default-features = false, features = ["blocking", "rustls-tls"] }
