[package]
name = "autocomplete_trie"
version = "0.1.0"
edition = "2021"
publish = false

[dependencies]
console_error_panic_hook = "0.1"
serde = { version = "1", features = ["derive"] }
serde_bare = "*"
serde-wasm-bindgen = "*"
wasm-bindgen = "0.2"
