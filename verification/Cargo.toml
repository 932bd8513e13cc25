[package]
name = "cache_metrics"
version = "0.1.0"
edition = "2021"
publish = false

[dependencies]
cuckoofilter = "=0.5.0"
scalable_cuckoo_filter = "=0.5.1"
rand = "=0.9.5"
pyo3 = { version = "=0.30.1", default-features = false, features = ["macros"] }
