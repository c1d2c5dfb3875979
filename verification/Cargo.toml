[package]
name = "gabelstaplerwm"
version = "0.1.0"
edition = "2021"

[dependencies]
toml = "*"
vec-arena = "*"
xcb = { version = "*", features = ["randr"] }
xkb = "*"
