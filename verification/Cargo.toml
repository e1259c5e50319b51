[package]
name = "ogham"
version = "0.1.0"
edition = "2021"
publish = false

[dependencies]
codespan-reporting = "=0.13.1"
serde = { version = "=1.0.229", features = ["derive"] }
serde_yaml = "=0.9.34"
la-arena = "=0.3.1"
string-interner = "=0.20.0"
clap = { version = "=4.6.7", features = ["derive"] }
