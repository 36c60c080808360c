[package]
name = "git_graph"
version = "0.1.0"
edition = "2021"
publish = false

[dependencies]
git2 = { version = "0.13", default-features = false }
itertools = "0.10"
regex = "1"
