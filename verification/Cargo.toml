[package]
name = "hexodsp"
version = "0.1.0"
edition = "2021"
publish = false

[dependencies]
serde_json = "1"
synfx-dsp-jit = "*"
ringbuf = "0.2"
lazy_static = "1"
num-traits = "0.2"
