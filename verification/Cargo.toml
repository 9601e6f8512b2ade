[package]
name = "node_authorization"
version = "0.1.0"
edition = "2021"
publish = false
