[package]
name = "code_steps"
version = "0.1.0"
edition = "2021"
publish = false

[dependencies]
syntect = { version = "5", default-features = false, features = ["default-syntaxes", "default-themes", "regex-fancy", "plist-load"] }
syn = { version = "2", features = ["full"] }
quote = "1"
proc-macro2 = "1"
