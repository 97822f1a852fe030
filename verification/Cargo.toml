[package]
name = "buffa_codegen"
version = "0.1.0"
edition = "2021"
publish = false

[dependencies]
jiff = { version = "0.2", default-features = false, features = ["alloc"] }
ecow = "0.2"
compact_str = "0.9"
proc-macro2 = "1"
quote = "1"
syn = { version = "2", features = ["full"] }
serde = { version = "1", features = ["derive"] }
thiserror = "2"
