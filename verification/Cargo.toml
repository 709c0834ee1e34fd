[package]
name = "ioc"
version = "0.1.0"
edition = "2021"
publish = false

[dependencies]
anyhow = "1"
downcast = "*"
once_cell = "1"
serde-value = "*"
ron = "*"
toml = "*"
