[package]
name = "turbine"
version = "0.1.0"
edition = "2021"
publish = false

[dependencies]
bumpalo = "3"
bytes = "1"
crossbeam-channel = "0.5"
crossbeam-epoch = "0.9"
io-uring = "0.7"
libc = "0.2"
pprof = { version = "0.14", features = ["flamegraph"] }
sharded-slab = "0.1"
slab = "0.4"
thiserror = "2"
tracing = "0.1"
