[package]
name = "gstoverlays"
version = "0.1.0"
edition = "2021"
publish = false

[dependencies]
byte-slice-cast = "=1.2.3"
