[package]
name = "entity_store"
version = "0.1.0"
edition = "2021"
publish = false

[dependencies]
ahash = "=0.8.12"
egui = { version = "=0.27.2", default-features = false }
emath = "=0.27.2"
getrandom = "=0.2.17"
itertools = "=0.12.1"
nohash-hasher = "=0.2.0"
parking_lot = "=0.12.5"
re_format = "=0.16.1"
re_log = "=0.16.1"
re_log_types = "=0.16.1"
re_smart_channel = "=0.16.1"
re_tracing = "=0.16.1"
re_types = { version = "=0.16.1", default-features = false }
re_types_core = "=0.16.1"
slotmap = "=1.1.1"
smallvec = "=1.16.4"
uuid = { version = "=1.29.0", features = ["v4"] }
web-time = "=0.2.4"
