[package]
name = "randcast_mock_demo"
version = "0.1.0"
edition = "2021"
publish = false

[dependencies]
bincode = "=1.3.3"
threshold-bls = "=0.2.2"
rand = "=0.8.8"
