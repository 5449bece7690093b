[package]
name = "semantic_hashing"
version = "0.1.0"
edition = "2021"
publish = false

[dependencies]
dotenv = "0.15"
env_logger = "*"
eyre = "*"
log = "*"
ndarray = "0.16"
ndarray-rand = "0.15"
openai = "*"
polars = { version = "*", default-features = false, features = ["csv"] }
rand = "0.8"
rand_pcg = "0.3"
tokio = { version = "1", features = ["macros", "rt-multi-thread"] }
