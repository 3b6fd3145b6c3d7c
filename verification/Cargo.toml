[package]
name = "petaplot"
version = "0.1.0"
edition = "2021"
publish = false

[dependencies]
rayon = "1.10"
bytemuck = { version = "1.18", features = ["derive"] }
memmap2 = "0.9"
arrow-array = "53.0"
arrow-schema = "53.0"
parquet = { version = "53.0", default-features = false, features = ["arrow"] }
dirs = "5"
thiserror = "1.0"
tracing = "0.1"
tracing-subscriber = { version = "0.3", default-features = false, features = ["fmt", "std"] }
