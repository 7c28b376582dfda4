[package]
name = "phoenix"
version = "0.1.0"
edition = "2021"
publish = false

[dependencies]
bulletproofs = { version = "=4.0.0", features = ["yoloproofs"] }
clear_on_drop = { version = "=0.2.5", features = ["no_cc"] }
curve25519-dalek = { version = "=4.1.3", features = ["rand_core", "digest"] }
curve25519-dalek-ng = "4"
merlin = "=3.0.0"
rand = "=0.8.8"
rand_chacha = "=0.3.1"
sha2 = "=0.10.9"
hex = "=0.4.3"
serde = { version = "=1.0.229", features = ["derive"] }
