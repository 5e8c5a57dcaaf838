[package]
name = "ledger_node"
version = "0.1.0"
edition = "2021"
publish = false

[dependencies]
sha3 = "=0.12.0"
hex = "=0.4.3"
pqcrypto-kyber = "=0.8.1"
pqcrypto-sphincsplus = "=0.7.2"
pqcrypto-traits = "=0.3.5"
serde = { version = "=1.0.229", features = ["derive"] }
serde_json = "=1.0.151"
tokio = { version = "=1.53.2", features = ["full"] }
warp = { version = "=0.4.3", features = ["server"] }
base64 = "*"
