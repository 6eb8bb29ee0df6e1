[package]
name = "arithmetic_parser_smetaniuk"
version = "0.1.0"
edition = "2021"
publish = false

[dependencies]
pest = "=2.9.4"
thiserror = "=1.0.69"
clap = { version = "=4.6.7", features = ["derive"] }

[dev-dependencies]
pest_vm = "=2.9.4"
pest_meta = "=2.9.4"
