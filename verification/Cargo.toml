[package]
name = "mhws_tex_decompressor"
version = "0.1.0"
edition = "2021"
publish = false

[dependencies]
color-eyre = "0.6"
dialoguer = "0.12"
fs-err = "3"
indicatif = "0.18"
iocraft = "0.7"
parking_lot = "0.12"
tokio = { version = "1", features = ["macros", "rt-multi-thread"] }
