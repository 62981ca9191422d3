[package]
name = "fluent"
version = "0.1.0"
edition = "2021"
publish = false

[dependencies]
memchr = "2"
regex = "1"
bytes = "1"
clap = "4"
annotate-snippets = "0.6"
