[package]
name = "lua_hints"
version = "0.1.0"
edition = "2021"
publish = false

[dependencies]
slotmap = "1.0"
linked-hash-map = "0.5"
full_moon = "0.18"
lsp-types = "0.94"
tower-lsp = "0.20"
tokio = { version = "1", features = ["macros", "rt-multi-thread", "io-std"] }
dashmap = "5"
crop = "*"
serde_json = "1"
