[package]
name = "subnet_garden"
version = "0.1.0"
edition = "2021"
publish = false

[dependencies]
cidr = "*"
clap = { version = "*", features = ["derive"] }
exitcode = "*"
serde = { version = "*", features = ["derive"] }
serde_json = "*"
serde_yaml = "*"

[dev-dependencies]
itertools = "*"
