[package]
name = "merge_picture"
version = "0.1.0"
edition = "2021"
publish = false

[dependencies]
lopdf = { version = "=0.35.0", default-features = false, features = ["nom_parser"] }
printpdf = "=0.8.2"
image = { version = "=0.25.10", default-features = false, features = ["png", "jpeg", "webp"] }
serde = { version = "=1.0.229", features = ["derive"] }
thiserror = "=2.0.21"
tempfile = "=3.27.0"
