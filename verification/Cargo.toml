[package]
name = "comrak"
version = "0.1.0"
edition = "2021"
publish = false

[dependencies]
entities = "1"
unicode_categories = "0.1"
caseless = "0.2"
twoway = "0.2"
emojis = "0.6"
id-arena = "2"
finl_unicode = "1"
