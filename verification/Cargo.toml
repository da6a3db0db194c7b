[package]
name = "wikilinker"
version = "0.1.0"
edition = "2021"
publish = false

[dependencies]
chrono = "0.4"
minreq = { version = "2", features = ["https", "json-using-serde"] }
percent-encoding = "1.0.1"
rand = "0.8"
rayon = "1"
read_input = "0.8"
serde_json = "1"
