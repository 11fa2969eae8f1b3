[package]
name = "sisko"
version = "0.1.0"
edition = "2021"
publish = false

[dependencies]
anyhow = "*"
lscolors = { version = "*", features = ["nu-ansi-term"] }
nu-ansi-term = "*"
nu-cmd-lang = "0.115"
nu-color-config = "0.115"
nu-config = "0.115"
nu-engine = "0.115"
nu-parser = "0.115"
nu-protocol = "0.115"
nu-std = "0.115"
nu-utils = "0.115"
