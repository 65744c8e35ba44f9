[package]
name = "collision_workbench"
version = "0.1.0"
edition = "2021"
publish = false

[dependencies]
caseless = "=0.2.2"
icu = "=1.5.0"
icu_casemap = "=2.3.0"
icu_normalizer = "=2.3.0"
icu_properties = "=2.3.0"
serde = { version = "=1.0.229", features = ["derive"] }
serde_json = "=1.0.154"
sha2 = "0.10"
unicode-general-category = "=1.1.0"
unicode-normalization = "=0.1.26"
unicode-script = "=0.5.9"
