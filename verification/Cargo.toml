[package]
name = "minimizer_iter"
version = "0.1.0"
edition = "2021"

[dependencies]
minimizer-queue = "*"
