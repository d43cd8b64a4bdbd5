[package]
name = "tree_manipulation"
version = "0.1.0"
edition = "2021"
publish = false

[dependencies]
anyhow = "=1.0.104"
bstr = "=1.13.1"
gix = { version = "=0.85.0", features = ["tree-editor", "command"] }
kstring = "=2.0.2"
tracing = "=0.1.44"
