[package]
name = "scm_core"
version = "0.1.0"
edition = "2021"
publish = false

[dependencies]
anyhow = "=1.0.104"
bytes = "=1.12.1"
futures = "=0.3.34"
gix-diff = { version = "=0.70.0", default-features = false, features = ["blob", "sha1"] }
tokio = { version = "=1.54.1", features = ["io-util", "rt"] }

[dev-dependencies]
gix-hash = { version = "=0.28.1", features = ["sha1"] }
gix-object = { version = "=0.66.1", features = ["sha1"] }
rand = "=0.8.8"
