[package]
name = "rcore_os"
version = "0.1.0"
edition = "2021"
publish = false
