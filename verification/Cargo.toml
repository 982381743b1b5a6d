[package]
name = "cmd"
version = "0.1.0"
edition = "2021"
publish = false

[dependencies]
rusqlite = { version = "*", features = ["bundled"] }
regex = "*"
home = "*"
clap = { version = "3", features = ["derive"] }
clap_complete = "3"
dialoguer = "*"
git2 = "*"
termcolor = "*"
log = "*"
env_logger = "*"
