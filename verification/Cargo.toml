[package]
name = "reactive_state"
version = "0.1.0"
edition = "2021"
publish = false

[dependencies]
slabmap = "*"
futures = "0.3"
