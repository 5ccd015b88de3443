[package]
name = "timetrack"
version = "0.1.0"
edition = "2021"
publish = false

[dependencies]
chrono = "0.4"
clap = "4"
anyhow = "1"
prettytable-rs = "0.10"
tempfile = "3"
