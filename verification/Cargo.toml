[package]
name = "erb_num2csv"
version = "0.1.0"
edition = "2021"
publish = false

[dependencies]
anyhow = "*"
env_logger = "*"
glob = "*"
log = "*"
rayon = "*"
regex = "*"
serde = { version = "*", features = ["derive"] }
serde_yaml = "*"
structopt = "*"
unicode_hfwidth = "*"
