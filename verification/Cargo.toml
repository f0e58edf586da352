[package]
name = "greedy_dag"
version = "0.1.0"
edition = "2021"
publish = false

[dependencies]
egglog = "=0.4.0"
egraph-serialize = "0.2"
indexmap = "=2.14.2"
rustc-hash = "=2.1.3"
