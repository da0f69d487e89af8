[package]
name = "hazy_ipa"
version = "0.1.0"
edition = "2021"
publish = false

[dependencies]
sha2 = "*"
base16ct = { version = "*", features = ["alloc"] }
git2 = { version = "*", default-features = false }
zip = { version = "*", default-features = false }
serde_json = "*"
canonical_json = "*"
thiserror = "*"
