[package]
name = "data_ferret"
version = "0.1.0"
edition = "2021"
publish = false
