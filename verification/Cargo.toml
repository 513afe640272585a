[package]
name = "camel_race"
version = "0.1.0"
edition = "2021"
publish = false

[dependencies]
crossterm = "0.27"
itertools = "0.12"
rand = "0.8"
ratatui = "0.26"
