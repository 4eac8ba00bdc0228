[package]
name = "cube_homs"
version = "0.1.0"
edition = "2021"
publish = false

[dev-dependencies]
arbitrary = "*"
arbtest = "*"
