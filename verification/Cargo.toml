[package]
name = "walgit_store"
version = "0.1.0"
edition = "2021"
publish = false

[dependencies]
abi_stable = "0.11"
anyhow = "1"
async-trait = "0.1"
azure_core = "*"
azure_identity = "*"
azure_storage_blob = "*"
bytes = "1"
futures = "0.3"
libloading = "*"
metrics = "*"
moka = { version = "0.12", features = ["sync"] }
parking_lot = "0.12"
rand = "0.8"
rand_chacha = "0.3"
redis = { version = "*", features = ["tokio-comp", "connection-manager", "aio"] }
serde = { version = "1", features = ["derive"] }
serde_json = "1"
sha2 = "0.10"
tokio = { version = "1", features = ["full"] }
tracing = "0.1"
url = "2"
xet-core-structures = "*"
xet-data = "*"
