[package]
name = "ballot_box"
version = "0.1.0"
edition = "2021"
publish = false

[dependencies]
actix-web = { version = "=4.18.1", default-features = false, features = ["macros", "rustls-0_23"] }
copypasta = "=0.10.2"
rand = "=0.9.5"
rcgen = { version = "=0.13.2", features = ["aws_lc_rs"] }
rustls = "=0.23.46"
serde = { version = "=1.0.229", features = ["derive"] }
sha2 = "=0.10.9"
tera = "=1.20.1"
tokio = { version = "=1.54.1", features = ["sync"] }
