[package]
name = "kcp_mux"
version = "0.1.0"
edition = "2021"
publish = false

[dependencies]
async-mutex = "1"
futures = "0.3"
log = "0.4"
tokio = { version = "1", features = ["net", "rt", "rt-multi-thread", "time", "sync"] }
