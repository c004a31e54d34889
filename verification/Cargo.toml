[package]
name = "lf_slots"
version = "0.1.0"
edition = "2021"
publish = false

[dependencies]
crossbeam-utils = "0.8"
portable-atomic = "1"
thread_local = "1"
