[package]
name = "diamond_types"
version = "0.1.0"
edition = "2021"
publish = false

[dependencies]
smallvec = { version = "1", features = ["serde"] }
serde = { version = "1", features = ["derive"] }
serde_json = "1"
chrono = { version = "0.4", default-features = false, features = ["std", "serde"] }
smartstring = { version = "1", features = ["serde"] }
wasm-bindgen = "0.2"
serde-wasm-bindgen = "0.6"
wee_alloc = "0.4"

[dev-dependencies]
rand = { version = "0.8", features = ["small_rng"] }
