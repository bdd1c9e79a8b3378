[package]
name = "component_test"
version = "0.1.0"
edition = "2021"
publish = false

[dependencies]
anyhow = "=1.0.104"
arcstr = { version = "=1.2.0", features = ["substr"] }
clap = { version = "=4.6.7", features = ["derive"] }
futures = "=0.3.34"
libc = "=0.2.191"
proc-macro2 = "=1.0.107"
quote = "=1.0.47"
serde = { version = "=1.0.229", features = ["derive"] }
serde_json = "=1.0.154"
sha2 = "=0.10.9"
syn = { version = "=2.0.119", features = ["full"] }
tokio = { version = "=1.54.1", features = ["time"] }
toml = "=0.9.12"
wac-graph = "=0.8.1"
wasmparser = "=0.239.0"
wasmtime = "48"
wasmtime-wasi = { version = "48", features = ["p3"] }
wasmtime-wizer = { version = "48", features = ["component-model", "wasmtime"] }
