[package]
name = "vorbis_comments"
version = "0.1.0"
edition = "2021"
publish = false

[dependencies]
lewton = "0.10"
ogg = "0.9"
thiserror = "1"
