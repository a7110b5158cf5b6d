[package]
name = "silver_oxide"
version = "0.1.0"
edition = "2021"
publish = false

[dependencies]
egg = "*"
im = "15"
lasso = "0.7"
num = "0.4"
typed-index-collections = "3"
