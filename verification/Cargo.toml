[package]
name = "grepverse"
version = "0.4.0"
edition = "2021"
publish = false

[dependencies]
ansi_term = "0.12"
atty = "0.2"
clap = "4"
globset = "0.4"
memmap2 = "0.9"
rayon = "1"
regex = "1"
walkdir = "2"
