[package]
name = "falling_sand"
version = "0.1.0"
edition = "2021"
publish = false

[dependencies]
# Not called from this crate. The derive crates of bevy 0.6 use syn's "full"
# feature without asking for it; async-trait asks for it on their behalf.
async-trait = "=0.1.64"
bevy = { version = "=0.6.1", default-features = false, features = ["render"] }
lazy_static = "=1.5.1"
