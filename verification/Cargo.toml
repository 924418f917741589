[package]
name = "photo_mosaic"
version = "0.1.0"
edition = "2021"
publish = false

[dependencies]
# Not called from this crate: indicatif 0.16 takes `console` without its
# default features and does not build unless `std` is switched on.
console = { version = "=0.16.6", default-features = false, features = ["std"] }
eyre = "=0.6.14"
image = "=0.24.9"
indicatif = { version = "=0.16.2", features = ["rayon"] }
rayon = "=1.12.0"
structopt = "=0.3.26"
