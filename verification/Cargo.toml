[package]
name = "martin_cp"
version = "0.1.0"
edition = "2021"
publish = false

[dependencies]
clap = { version = "=4.6.7", features = ["derive"] }
env_logger = "=0.11.11"
futures = "=0.3.34"
log = "=0.4.34"
martin-tile-utils = "=0.7.3"
mbtiles = "=0.17.6"
serde_json = "=1.0.151"
thiserror = "=2.0.21"
tilejson = "=0.4.4"
tokio = { version = "=1.53.2", features = ["rt-multi-thread", "sync", "time", "macros"] }
