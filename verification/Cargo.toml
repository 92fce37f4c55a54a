[package]
name = "peg_solitaire"
version = "0.1.0"
edition = "2021"
publish = false

[dependencies]
bincode = "2"
bitvec = "1"
log = "0.4"
primal = "0.3"
rand = "0.9"
rand_pcg = "0.9"
rayon = "1"
serde = { version = "1", features = ["derive"] }
serde_json = "1"
