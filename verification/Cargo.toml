[package]
name = "osurate"
version = "0.2.0"
edition = "2021"
publish = false

[dependencies]
minimp3 = "=0.5.2"
lame = "=0.1.3"
dasp = { version = "=0.11.0", features = ["signal", "interpolate", "interpolate-linear"] }
