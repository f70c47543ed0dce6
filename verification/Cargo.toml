[package]
name = "fuko"
version = "0.1.0"
edition = "2021"
publish = false

[dependencies]
fraction = "=0.17.0"
pest = "=2.9.4"
pest_derive = "=2.9.4"
