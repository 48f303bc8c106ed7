[package]
name = "spritefusion-pixel-snapper"
version = "0.1.0"
edition = "2021"
publish = false

[dependencies]
image = { version = "0.25", default-features = false, features = ["png", "jpeg", "gif", "bmp", "ico", "webp", "tiff", "pnm", "tga", "qoi", "hdr"] }
rand = "0.8"
rand_chacha = "0.3"
rand_distr = "0.4"
rayon = "1"
wasm-bindgen = "0.2"
