[package]
name = "firewalleye"
version = "0.1.0"
edition = "2021"
publish = false

[dependencies]
sea-orm = { version = "=1.1.20", default-features = false, features = ["macros"] }
serde = { version = "=1.0.229", features = ["derive"] }
rocket = { version = "=0.5.2", features = ["json"] }
utoipa = { version = "=6.0.0", features = ["rocket_extras"] }
utoipa-scalar = { version = "=0.4.0", features = ["rocket"] }
clap = { version = "=4.6.7", features = ["derive"] }
libc = "=0.2.191"
