[package]
name = "markov_text"
version = "0.1.0"
edition = "2021"
publish = false

[dependencies]
futures = "0.3"
rand = "0.7"
structopt = "0.3"
telegram-bot = { version = "0.7", default-features = false, features = ["rustls"] }
tokio = { version = "0.2", features = ["macros", "rt-threaded"] }
