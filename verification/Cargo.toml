[package]
name = "bfuck"
version = "0.1.0"
edition = "2021"
publish = false

[dependencies]
cranelift = "=0.133.3"
memmap2 = "=0.9.11"
target-lexicon = "*"
clap = "=4.6.7"
