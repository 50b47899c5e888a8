[package]
name = "indexer"
version = "0.1.0"
edition = "2021"
publish = false

[dependencies]
unicode-segmentation = "=1.13.3"
stop-words = { version = "=0.10.1", default-features = false, features = ["nltk"] }
serde = { version = "=1.0.229", features = ["derive"] }
serde_json = "=1.0.154"
clap = { version = "=4.6.7", features = ["cargo"] }
directories = "=6.0.0"
dotenv = "=0.15.0"
ansi_term = "=0.12.1"
percent-encoding = "=2.3.2"
