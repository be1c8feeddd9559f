[package]
name = "kobara_ob"
version = "0.1.0"
edition = "2021"
publish = false

[dependencies]
rust_decimal = "=1.43.0"
chrono = "=0.4.45"
memmap2 = "=0.9.12"
tokio = { version = "=1.54.1", features = ["macros", "rt-multi-thread"] }
tonic = "=0.12.3"
prost = "=0.13.5"
prost-types = "=0.13.5"
rustler = "0.31"
