[package]
name = "summarizer"
version = "0.1.0"
edition = "2021"
publish = false
