[package]
name = "monadicast"
version = "0.1.0"
edition = "2021"
publish = false

[dependencies]
syn = { version = "2", features = ["full", "visit", "visit-mut", "extra-traits", "parsing", "printing"] }
quote = "1"
proc-macro2 = "1"
prettyplease = "0.2"
walkdir = "2"
