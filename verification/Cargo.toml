[package]
name = "eco_core"
version = "0.1.0"
edition = "2021"
publish = false

[dependencies]
async-std = { version = "*", features = ["attributes"] }
async-trait = "*"
futures = "*"
libp2p = { version = "*", features = ["async-std", "tcp", "tls", "yamux", "ping", "identify", "mdns", "rendezvous", "macros", "request-response"] }
libp2p-identity = "*"
serde = { version = "*", features = ["derive"] }
tracing-subscriber = { version = "*", features = ["env-filter"] }
