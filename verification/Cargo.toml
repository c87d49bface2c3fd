[package]
name = "prediction_game"
version = "0.1.0"
edition = "2021"
publish = false

[dependencies]
cosmwasm-std = "1"
cosmwasm-schema = "1"
cw-storage-plus = "1"
cw-utils = "1"
pyth-sdk-cw = "*"
