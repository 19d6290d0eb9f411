[package]
name = "pathfinder"
version = "0.1.0"
edition = "2021"
publish = false

[dependencies]
gloo-timers = "0.2"
gloo-utils = "0.1"
rand = "0.7"
wasm-bindgen = "0.2"
yew = "0.19"
