[package]
name = "conservation_spectral_v2"
version = "0.2.0"
edition = "2021"
publish = false

[dependencies]
bytemuck = { version = "1", features = ["extern_crate_alloc"] }
wide = "*"
