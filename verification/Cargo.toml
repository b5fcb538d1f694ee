[package]
name = "aiq"
version = "0.1.0"
edition = "2021"
publish = false

[dependencies]
atomic-wait = "1"
libc = "0.2"
lock_api = "0.4"
parking_lot = "0.12"
