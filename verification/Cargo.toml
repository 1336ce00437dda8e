[package]
name = "bopo_wiki"
version = "0.1.0"
edition = "2021"
publish = false

[dependencies]
jieba-rs = "*"
axum = "*"
tokio = { version = "*", features = ["macros", "rt-multi-thread", "net"] }
reqwest = { version = "*", default-features = false, features = ["rustls-tls"] }
