[package]
name = "git_metafile"
version = "0.1.0"
edition = "2021"
publish = false

[dependencies]
argp = "*"
boolinator = "*"
nix = { version = "*", default-features = false, features = ["fs", "user"] }
quick-error = "*"
