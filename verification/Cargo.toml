[package]
name = "virtual_view_dom"
version = "0.1.0"
edition = "2021"
publish = false

[dependencies]
stdweb = "=0.4.20"
serde = { version = "=1.0.229", features = ["derive"] }
serde_json = "=1.0.151"
