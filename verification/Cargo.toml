[package]
name = "automancy"
version = "0.1.0"
edition = "2021"
publish = false

[dependencies]
vulkano = "0.29"
winit = "0.26"
bytemuck = { version = "1", features = ["derive"] }
flexstr = "0.9"
rune = "0.12"
serde = { version = "1", features = ["derive"] }
string-interner = "0.14"
