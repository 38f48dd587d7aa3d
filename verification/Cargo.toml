[package]
name = "transit_isochrones"
version = "0.1.0"
edition = "2021"
publish = false

[dependencies]
anyhow = "=1.0.104"
chrono = "=0.4.45"
clap = { version = "=4.6.7", features = ["derive"] }
contour = { version = "=0.13.1", features = ["geojson"] }
geojson = "=0.24.2"
gtfs-structures = { version = "=0.52.0", default-features = false }
kdtree = "=0.7.0"
num_cpus = "=1.17.0"
osmpbf = "=0.3.8"
rayon = "=1.12.0"
rocket = "=0.5.2"
