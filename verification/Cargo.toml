[package]
name = "rs_crafter_sim"
version = "0.1.0"
edition = "2021"
publish = false

[dependencies]
good_lp = { version = "1", default-features = false, features = ["microlp"] }
