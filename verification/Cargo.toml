[package]
name = "jotai_rs"
version = "0.1.0"
edition = "2021"
publish = false

[dependencies]
dashmap = "=6.2.1"
parking_lot = "=0.12.5"
thiserror = "=2.0.21"
uid = "=0.1.9"
