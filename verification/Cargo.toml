[package]
name = "color_extract"
version = "0.1.0"
edition = "2021"
publish = false

[dependencies]
actix-files = "0.6"
actix-web = { version = "4", default-features = false, features = ["macros"] }
anyhow = "1"
base64 = "0.22"
chrono = { version = "0.4", default-features = false, features = ["clock", "std"] }
font8x8 = "0.3"
image = { version = "0.25", default-features = false, features = ["png", "jpeg"] }
linfa = "0.8"
linfa-clustering = "0.8"
ndarray = "0.16"
palette = "0.7"
rand = "0.8"
rand_xoshiro = "0.6"
rayon = "1"
rustfft = "6"
serde = { version = "1", features = ["derive"] }
serde_json = "1"
serde_yaml = "0.9"
