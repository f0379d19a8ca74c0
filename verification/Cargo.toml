[package]
name = "player_network"
version = "0.1.0"
edition = "2021"

[dependencies]
rand = "*"
csv = "*"
plotters = "*"
