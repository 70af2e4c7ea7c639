[package]
name = "blog_gen"
version = "0.1.0"
edition = "2021"
publish = false

[dependencies]
askama = "0.12"
chrono = "0.4"
katex = "0.4"
pulldown-cmark = { version = "0.9", default-features = false }

[dev-dependencies]
regex = "1"
