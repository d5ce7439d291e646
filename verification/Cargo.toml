[package]
name = "glitch_octave"
version = "0.1.0"
edition = "2021"
publish = false

[dependencies]
log = "0.4"
rand_xoshiro = "0.6"
vst = "*"
