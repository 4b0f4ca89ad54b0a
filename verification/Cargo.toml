[package]
name = "crin"
version = "0.1.0"
edition = "2021"
publish = false

[dependencies]
toml_edit = "*"
chrono = "*"
clap = "*"
colored = "*"
crates_io_api = "*"
directories = "*"
num-format = "*"
timeago = { version = "*", features = ["chrono"] }
byte-unit = "*"
