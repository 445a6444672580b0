[package]
name = "preference_splitting"
version = "0.1.0"
edition = "2021"
publish = false

[dependencies]
roxmltree = "*"
serde = { version = "1", features = ["derive"] }
serde_json = "1"
structopt = "0.3"
rand = "*"
chrono = "*"
indicatif = "*"
crossbeam = "*"
rayon = "*"
ordered-float = "*"
geojson = "*"
osmpbfreader = "*"
glpk-sys = "*"
