[package]
name = "perun_ledger"
version = "0.1.0"
edition = "2021"
publish = false

[dependencies]
digest = "0.9"
ed25519-dalek = "1"
candid = "*"
ic-cdk = "*"
icrc-ledger-types = "*"
serde = { version = "*", features = ["derive"] }
lazy_static = "*"
