[package]
name = "iioon"
version = "0.1.0"
edition = "2021"
publish = false

[dependencies]
anyhow = "=1.0.104"
convert_case = "=0.12.0"
darling = "=0.21.3"
proc-macro-error2 = "=2.0.1"
proc-macro2 = "=1.0.107"
quote = "=1.0.47"
syn = "=2.0.119"
toml = "=1.1.8"

[dev-dependencies]
regex = "=1.13.1"
