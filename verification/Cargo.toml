[package]
name = "obj_alloc"
version = "0.1.0"
edition = "2021"
publish = false

[dependencies]
field-collex = "=0.0.13"
span-core = "=0.1.1"
serde = { version = "=1.0.229", features = ["derive"] }

[dev-dependencies]
serde_json = "=1.0.154"
