[package]
name = "save_editor"
version = "0.1.0"
edition = "2021"
publish = false

[dependencies]
lzf = "*"
clap = "2"
xmltree = "*"
