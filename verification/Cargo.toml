[package]
name = "lunas"
version = "0.1.0"
edition = "2021"
publish = false

[dependencies]
serde = { version = "1", features = ["derive"] }
serde_json = { version = "1", features = ["preserve_order"] }
swc_common = "*"
swc_ecma_ast = { version = "*", features = ["serde-impl"] }
swc_ecma_parser = "*"
