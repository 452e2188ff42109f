[package]
name = "holon"
version = "0.1.0"
edition = "2021"
publish = false

[dependencies]
arrow = "*"
arrow-array = "*"
arrow-buffer = "*"
arrow-data = "*"
arrow-schema = "*"
arrow-select = "*"
bytemuck = { version = "1", features = ["derive"] }
libc = "0.2"
thiserror = "*"
