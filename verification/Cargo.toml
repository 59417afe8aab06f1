[package]
name = "astray"
version = "0.1.0"
edition = "2021"
publish = false

[dependencies]
pathfinding = "4"
geo-types = "0.7"
dxf = "*"
svg = "*"
tiny-skia = "*"
minifb = "*"
