[package]
name = "swim_clean_all"
version = "0.1.0"
edition = "2021"
publish = false

[dependencies]
argh = "*"
colog = "*"
crossterm = "*"
dirs = "*"
fs_extra = "*"
indicatif = "*"
log = "*"
owo-colors = "*"
serde = { version = "*", features = ["derive"] }
snafu = "*"
toml = "*"
walkdir = "*"
