[package]
name = "the_way"
version = "0.1.0"
edition = "2021"
publish = false

[dependencies]
sled = "0.34"
anyhow = "1"
clap = "2"
structopt = "0.3"
