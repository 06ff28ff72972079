[package]
name = "linecount"
version = "0.1.0"
edition = "2021"
publish = false

[dependencies]
clap = "2"
deque = "*"
ignore = "0.4"
loc = "*"
num_cpus = "1"
regex = "1"
terminal_size = "*"
