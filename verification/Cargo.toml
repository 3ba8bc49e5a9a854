[package]
name = "excel-tool"
version = "0.1.0"
edition = "2021"
publish = false

[dependencies]
anyhow = "*"
calamine = "*"
clap = { version = "*", features = ["derive"] }
colored = "*"
flate2 = "*"
heck = "*"
path-clean = "*"
quick-xml = "*"
rayon = "*"
regex = "*"
serde = { version = "*", features = ["derive"] }
serde_json = "*"
toml = "*"
url = "*"
zip = "*"
