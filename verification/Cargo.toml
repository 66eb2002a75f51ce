[package]
name = "duckdb_jfr"
version = "0.1.0"
edition = "2021"
publish = false

[dependencies]
jfrs = "=0.2.5"
flate2 = "=1.1.10"
rustc-hash = "=2.1.3"
anyhow = "=1.0.104"
log = "=0.4.35"
env_logger = "=0.11.11"
libduckdb-sys = { version = "=1.20000.1", default-features = false, features = ["capi-v1"] }
