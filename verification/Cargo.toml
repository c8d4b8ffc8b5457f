[package]
name = "htmlq"
version = "0.4.0"
edition = "2021"
publish = false

[dependencies]
clap = "2.33"
html5ever = "0.25"
kuchiki = "0.8.1"
serde_json = "1"
url = "2.2"
