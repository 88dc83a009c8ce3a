[package]
name = "wows_toolkit"
version = "0.1.0"
edition = "2021"
publish = false

[dependencies]
levenshtein = "=1.0.5"
semver = "=1.0.28"
jiff = "=0.2.39"
glob = "=0.3.4"
language-tags = "=0.3.2"
escaper = "=0.1.1"
unidecode = "=0.3.0"
humansize = "2"
serde = { version = "=1.0.229", features = ["derive"] }
serde_json = "=1.0.154"
