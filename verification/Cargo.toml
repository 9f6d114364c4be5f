[package]
name = "tailwindcss_oxide"
version = "0.1.0"
edition = "2021"
publish = false

[dependencies]
bstr = "1"
fxhash = "0.2"
globwalk = "0.9"
ignore = "0.4"
rayon = "1"
tracing = "0.1"
tracing-subscriber = "0.3"
walkdir = "2"
