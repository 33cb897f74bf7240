[package]
name = "rusty_sheet"
version = "0.1.0"
edition = "2021"
publish = false

[dependencies]
anyhow = "=1.0.104"
cfb = "=0.16.0"
duckdb = { version = "=1.4.5", features = ["vtab", "loadable-extension"] }
encoding_rs = "=0.8.44"
glob = "=0.3.4"
libduckdb-sys = { version = "=1.4.5", features = ["loadable-extension"] }
quick-xml = "=0.38.4"
tempfile = "=3.27.0"
thiserror = "=2.0.21"
zip = { version = "=9.2.2", default-features = false, features = ["deflate"] }
