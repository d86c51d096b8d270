[package]
name = "smithay"
version = "0.2.0"
edition = "2021"
publish = false

[dependencies]
calloop = "0.6"
drm = "0.4"
nix = "0.17"
slog = "2"
udev = "0.4"
wayland-server = { version = "0.26", default-features = false }
