[package]
name = "sg_search"
version = "0.1.0"
edition = "2021"
publish = false

[dependencies]
regex = "1"
jieba-rs = "*"
fst = { version = "0.4", features = ["levenshtein"] }
rand = "0.8"
memmap2 = "*"
fs2 = "0.4"

[dev-dependencies]
bincode = "2"
