[package]
name = "egglog_experimental"
version = "3.0.0"
edition = "2021"
publish = false

[dependencies]
egglog = { version = "=3.0.0", default-features = false }
egglog-numeric-id = "=3.0.0"
log = "=0.4.35"
