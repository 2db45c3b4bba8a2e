[package]
name = "aion"
version = "0.1.0"
edition = "2021"
publish = false

[dependencies]
iota-conversion = "=0.3.0"
iota-signing = "=0.2.1"
iota-model = "=0.3.0"
iota-utils = "=0.2.1"
iota-constants = "=0.2.1"
iota-crypto = "=0.3.0"
sha2 = "=0.8.2"
base64 = "=0.11.0"
serde = { version = "=1.0.229", features = ["derive"] }
serde_json = "=1.0.154"
petgraph = "=0.5.1"
lru-cache = "=0.1.2"
hocon = "=0.3.7"
log = "=0.4.35"
env_logger = "=0.7.1"
lazy_static = "=1.5.1"
reqwest = { version = "=0.10.10", default-features = false, features = ["blocking", "json"] }
zmq = "=0.9.2"
riker = "=0.3.2"
actix-web = "=2.0.0"
actix-rt = "=1.1.1"
futures = "=0.3.34"
