[package]
name = "tile_route"
version = "0.1.0"
edition = "2021"
publish = false

[dependencies]
geo-types = "*"
gpx = "*"
proj = "*"
reqwest = { version = "*", features = ["json"] }
serde = { version = "*", features = ["derive"] }
serde_json = "*"
tokio = { version = "*", features = ["macros", "rt-multi-thread"] }
