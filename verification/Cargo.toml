[package]
name = "roaring"
version = "0.1.0"
edition = "2021"
publish = false

[dependencies]
proptest = "=1.12.0"
quickcheck = "=1.1.0"
crabcheck = "=0.2.0"
hegeltest = { version = "=0.51.0", features = ["static-engine"] }
