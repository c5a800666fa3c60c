[package]
name = "ttags"
version = "0.1.0"
edition = "2021"
publish = false

[dependencies]
bincode = "1"
clap = { version = "4", features = ["derive"] }
crossbeam-channel = "0.5"
easy-parallel = "3"
globwalk = "0.9"
itertools = "*"
magic = "0.16"
num_cpus = "1"
rayon = "1"
regex = "1"
rusqlite = "*"
serde = { version = "1", features = ["derive"] }
tree-sitter-tags = "*"
tree-sitter-rust = "*"
tree-sitter-cpp = "*"
tree-sitter-javascript = "*"
tree-sitter-python = "*"
