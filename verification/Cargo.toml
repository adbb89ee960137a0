[package]
name = "osm_pbf2json"
version = "0.1.0"
edition = "2021"
publish = false

[dependencies]
geo = "*"
geo-types = "*"
itertools = "*"
osm_boundaries_utils = "*"
osmpbfreader = "*"
petgraph = "*"
rand = "*"
rayon = "*"
rstar = "*"
serde = { version = "1", features = ["derive"] }
serde_json = "1"
smartstring = "*"
structopt = "0.3"
