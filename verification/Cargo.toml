[package]
name = "ros_mm"
version = "0.1.0"
edition = "2021"
publish = false

[dependencies]
xalloc = "*"
device_tree = "*"
spin = "*"
once_cell = "*"
