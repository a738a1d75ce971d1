[package]
name = "vizia_core"
version = "0.1.0"
edition = "2021"
publish = false

[dependencies]
femtovg = { version = "0.3", default-features = false, features = ["image-loading"] }
image = { version = "0.24", default-features = false, features = ["png"] }

[dev-dependencies]
generational-arena = "0.2"
