[package]
name = "chainstate"
version = "0.1.0"
edition = "2021"
publish = false

[dependencies]
bit-vec = "0.6"
hex = "0.4"
im = "15"
primitive-types = "0.11"
priority-queue = "1"
sha3 = "0.10"
