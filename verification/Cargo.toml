[package]
name = "cdtoc"
version = "0.1.0"
edition = "2021"
publish = false

[dependencies]
sha1 = "0.10"
