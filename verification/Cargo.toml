[package]
name = "template_hydrator"
version = "0.1.0"
edition = "2021"
publish = false

[dependencies]
cosmwasm-std = { version = "1.5", features = ["stargate", "cosmwasm_1_2"] }
cosmwasm-schema = "1.5"
cw2 = "1.1"
serde_json = "1"
serde-json-wasm = "0.5"

[dev-dependencies]
base64 = "0.13"
