[package]
name = "milli"
version = "0.1.0"
edition = "2021"
publish = false

[dependencies]
roaring = "*"
regex = "1"
fst = "0.4"
slice-group-by = "*"
cow-utils = "*"
anyhow = "1"
serde = { version = "1", features = ["derive"] }
structopt = "0.3"
csv = "1"
heed = "0.10"
rayon = "1"
tempfile = "3"
memmap = "0.7"
log = "0.4"
