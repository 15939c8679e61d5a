[package]
name = "draft_kv"
version = "0.1.0"
edition = "2021"
publish = false

[dependencies]
skiplist = "=0.4.0"
itertools = "=0.15.0"
crossbeam-channel = "=0.5.17"
crossbeam-utils = "=0.8.23"
