[package]
name = "proteus-lib"
version = "0.1.0"
edition = "2021"
publish = false

[dependencies]
log = "0.4"
rodio = { version = "*", default-features = false }
symphonia = { version = "*", default-features = false }
dasp_ring_buffer = "*"
