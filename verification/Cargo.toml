[package]
name = "heavykeeper"
version = "0.1.0"
edition = "2021"
publish = false

[dependencies]
fastrand = "2.5.0"
hashbrown = "0.17.1"
siphasher = "1.0.4"
