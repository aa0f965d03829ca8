[package]
name = "midly"
version = "0.5.3"
edition = "2021"
publish = false

[dependencies]
clap = { version = "4", features = ["derive"] }
memmap2 = "0.9"
rayon = "1"
sysinfo = "0.29"
