[package]
name = "twin_api"
version = "0.1.0"
edition = "2021"
publish = false

[dependencies]
uuid = { version = "0.8", features = ["v4", "serde"] }
blob-uuid = "0.4"
rust-argon2 = "0.8"
rand = "0.7"
chrono = "=0.4.45"
jsonwebtoken = "=9.3.1"
serde = { version = "=1.0.229", features = ["derive"] }
serde_json = { version = "=1.0.154", features = ["raw_value"] }
cdrs = "=2.3.3"
cdrs_helpers_derive = "=0.4.0"
actix-web = { version = "=4.18.1", default-features = false, features = ["macros", "compress-brotli"] }
actix-rt = "=2.15.0"
envy = "=0.4.2"
dotenv = "=0.15.0"
env_logger = "=0.11.11"
log = "=0.4.35"
