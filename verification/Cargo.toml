[package]
name = "lsd_hub"
version = "1.0.0"
edition = "2021"
publish = false

[dependencies]
cosmwasm-std = { version = "=1.5.11", features = ["staking"] }
cosmwasm-schema = "=1.5.11"
cw-storage-plus = "=1.2.0"
cw-utils = "=1.0.3"
cw2 = "=1.1.2"
cw20 = "=1.1.2"
thiserror = "=1.0.69"
semver = "=1.0.28"
