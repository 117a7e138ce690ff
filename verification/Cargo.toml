[package]
name = "hledger_get_market_prices"
version = "0.1.0"
edition = "2021"
publish = false

[dependencies]
alpha_vantage = "=0.11.0"
clap = { version = "=4.6.7", features = ["derive"] }
reqwest = "=0.12.28"
tokio = { version = "=1.53.2", features = ["macros", "rt-multi-thread"] }
