[package]
name = "rtfsn"
version = "0.1.0"
edition = "2021"
publish = false

[dependencies]
blake3 = "1"
ed25519-dalek = "2"
curve25519-dalek = "4"
sha2 = "0.10"
rand = "0.9"
rand_distr = "0.5"
getrandom = "0.3"
serde = { version = "1", features = ["derive"] }
serde_json = "1"
clap = { version = "4", features = ["derive"] }
tokio = { version = "1", features = ["net", "sync", "time", "macros", "rt-multi-thread"] }
anyhow = "1"
thiserror = "2"
async-trait = "0.1"
tracing = "0.1"
tracing-subscriber = { version = "0.3", features = ["env-filter"] }
wasm-bindgen = "0.2"
web-sys = { version = "0.3", features = ["Window", "Performance"] }
