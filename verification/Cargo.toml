[package]
name = "aoc"
version = "0.1.0"
edition = "2021"
publish = false

[dependencies]
regex = "=1.13.1"
petgraph = "=0.8.3"
linked-list = "=0.2.0"
chrono = "=0.4.45"
