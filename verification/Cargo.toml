[package]
name = "topcoat_css"
version = "0.1.2"
edition = "2021"
publish = false

[dependencies]
lightningcss = { version = "=1.0.0-alpha.65", default-features = false, features = ["grid", "visitor"] }
parcel_selectors = "=0.28.1"
sha2 = "=0.10.9"
syn = { version = "=2.0.119", features = ["full"] }
proc-macro2 = { version = "=1.0.107", features = ["span-locations"] }
quote = "=1.0.47"
serde = { version = "=1.0.229", features = ["derive"] }
serde_json = "=1.0.154"
