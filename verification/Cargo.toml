[package]
name = "stake_rewards"
version = "0.1.0"
edition = "2021"
publish = false

[dependencies]
cosmwasm-std = "=2.3.5"
kujira = "=1.3.0"
cw-utils = "2"
serde = { version = "*", features = ["derive"] }
thiserror = "*"
