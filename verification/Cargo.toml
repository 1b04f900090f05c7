[package]
name = "osm_index"
version = "0.1.0"
edition = "2021"
publish = false

[dependencies]
anes = "=0.1.6"
anyhow = "=1.0.104"
byte-slice-cast = "=1.2.3"
clap = { version = "=4.6.7", features = ["derive"] }
env_logger = "=0.11.11"
humantime = "=2.4.0"
log = "=0.4.35"
memmap = "=0.7.0"
ordered-float = "=2.10.1"
osmpbf = "=0.3.8"
pbr = "=1.1.1"
rand = { version = "=0.8.8", features = ["small_rng"] }
rayon = "=1.12.0"
rgeometry = "=0.7.0"
