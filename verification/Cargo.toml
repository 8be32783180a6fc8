[package]
name = "epaper_dither"
version = "0.1.0"
edition = "2021"
publish = false

[dependencies]
exoquant = "=0.2.0"
rand = "=0.10.3"
image = "=0.25.10"
rayon = "=1.12.0"
indicatif = { version = "=0.18.6", features = ["rayon"] }
structopt = "=0.3.26"
wild = "=2.2.1"
