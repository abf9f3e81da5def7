[package]
name = "xiff"
version = "0.1.0"
edition = "2021"
publish = false

[dependencies]
diff = "*"
git2 = { version = "*", default-features = false }
