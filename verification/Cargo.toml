[package]
name = "group-similar"
version = "0.1.0"
edition = "2021"
publish = false

[dependencies]
colored = "*"
jaro_winkler = "*"
kodama = "*"
mimalloc = "*"
rayon = "*"
serde_json = "*"
structopt = "*"
