[package]
name = "omap"
version = "0.1.0"
edition = "2021"
publish = false

[dependencies]
chrono = "=0.4.45"
geo-types = "=0.7.20"
kiddo = "=5.3.3"
linestring2bezier = "=0.8.0"
proj4rs = { version = "=0.2.1", features = ["crs-definitions"] }
thiserror = "=2.0.21"
world_magnetic_model = "=1.2025.0"
