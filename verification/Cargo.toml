[package]
name = "zenoh_net"
version = "0.1.0"
edition = "2021"
publish = false

[dependencies]
rand = "0.8"
itertools = "0.10"
vector-map = "1"
vec_map = "0.8"
petgraph = "0.6"
libc = "0.2"
tokio = { version = "1", features = ["net", "rt"] }
tracing = "0.1"
