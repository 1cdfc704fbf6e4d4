[package]
name = "mdroll"
version = "0.1.0"
edition = "2021"
publish = false

[dependencies]
unicode-width = "=0.2.3"
unicode-linebreak = "=0.1.5"
anyhow = "1"
arboard = { version = "*", default-features = false }
ab_glyph = "*"
base64 = "*"
clap = { version = "4", features = ["derive"] }
clap_mangen = "*"
comrak = { version = "*", default-features = false }
crossterm = "*"
dirs = "*"
image = { version = "*", default-features = false, features = ["png"] }
libc = "*"
resvg = "*"
serde = { version = "1", features = ["derive"] }
syntect = { version = "5", default-features = false, features = ["default-syntaxes", "default-themes", "regex-fancy"] }
toml = "*"
ureq = "*"
