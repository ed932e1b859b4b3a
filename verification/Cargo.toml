[package]
name = "osm_pbf"
version = "0.1.0"
edition = "2021"
publish = false

[dependencies]
arrayref = "*"
clap = "2"
db-key = "*"
flat_map = "*"
geo-types = "*"
geojson = "*"
itertools = "*"
osmpbfreader = "*"
serde_json = "*"
store = "0.1.0-alpha.3"
tempdir = "*"
