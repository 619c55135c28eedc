[package]
name = "space_views"
version = "0.1.0"
edition = "2021"
publish = false

[dependencies]
arrow2 = "*"
egui_dock = "*"
uuid = { version = "1", features = ["v4", "serde"] }
serde = { version = "1", features = ["derive"] }
itertools = "*"
camino = "1"
