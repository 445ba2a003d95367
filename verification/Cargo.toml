[package]
name = "termlink"
version = "0.1.0"
edition = "2021"

[dependencies]
pulldown-cmark = { version = "=0.13.6", default-features = false }
pulldown-cmark-to-cmark = "22"
regex = "=1.13.1"
