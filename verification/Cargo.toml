[package]
name = "zenoh_resource"
version = "0.1.0"
edition = "2021"
publish = false

[dependencies]
zenoh-protocol = "*"
zenoh-keyexpr = "*"
