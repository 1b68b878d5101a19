[package]
name = "jtp"
version = "0.1.0"
edition = "2021"
publish = false

[dependencies]
hex = "0.4"
quinn = { version = "0.11", default-features = false, features = ["runtime-tokio", "rustls-ring"] }
rustls = { version = "0.23", default-features = false, features = ["ring", "std", "tls12"] }
rustls-pemfile = "2"
tokio = { version = "1", features = ["full"] }
tokio-rustls = { version = "0.26", default-features = false, features = ["ring", "tls12"] }
unicode-normalization = "0.1"
webpki-roots = "0.26"
xxhash-rust = { version = "0.8", features = ["xxh64"] }
zstd = "0.13"
