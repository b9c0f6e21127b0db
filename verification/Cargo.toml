[package]
name = "snesgfx"
version = "0.1.0"
edition = "2021"
publish = false

[dependencies]
bincode = "1.3"
clap = "2.33"
png = "0.16"
