[package]
name = "snipdoc"
version = "0.1.0"
edition = "2021"
publish = false

[dependencies]
clap = { version = "4", features = ["derive"] }
console = "0.15"
dunce = "1"
ignore = "0.4"
lazy_static = "1"
rayon = "1"
regex = "1"
requestty = "0.5"
scraper = "*"
serde = { version = "1", features = ["derive"] }
serde_regex = "1"
serde_yaml = "0.9"
tabled = "*"
thiserror = "1"
tracing = "0.1"
tracing-subscriber = { version = "0.3", features = ["env-filter"] }
