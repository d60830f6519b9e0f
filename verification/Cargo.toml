[package]
name = "milli"
version = "0.1.0"
edition = "2021"
publish = false

[dependencies]
roaring = "*"
fst = "*"
bimap = "*"
serde_json = "*"
chrono = "*"
rstar = "*"
csv = "*"
serde = "*"

[dev-dependencies]
obkv = "*"
