[package]
name = "three_two_d_basics"
version = "0.1.0"
edition = "2021"
publish = false

[dependencies]
bresenham = "0.1"
minifb = "*"
