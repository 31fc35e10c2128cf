[package]
name = "ilp_store"
version = "0.1.0"
edition = "2021"
publish = false

[dependencies]
redis = "*"
hashbrown = "*"
parking_lot = "*"
