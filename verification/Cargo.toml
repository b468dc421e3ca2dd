[package]
name = "toip"
version = "0.1.0"
edition = "2021"
publish = false

[dependencies]
chrono = "*"
clap = { version = "*", features = ["derive"] }
colored = "*"
hashbrown = "*"
rayon = "*"
reqwest = { version = "*", default-features = false, features = ["blocking", "json"] }
serde_json = "*"

[dev-dependencies]
regex = "*"
