[package]
name = "parapet"
version = "0.1.0"
edition = "2021"
publish = false

[dependencies]
aho-corasick = "1"
libinjectionrs = "0.1"
quick-xml = "*"
regex = "1"
serde = { version = "1", features = ["derive"] }
serde_json = "1"
sha1 = "0.10"
