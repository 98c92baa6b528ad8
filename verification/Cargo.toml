[package]
name = "eink_disp"
version = "0.1.0"
edition = "2021"
publish = false

[dependencies]
smallvec = "1"
bytes = "1"
embedded-graphics = "0.7"
epd-waveshare = "0.5"
ergast-rs = "*"
eyre = "0.6"
hyper = "0.14"
tokio = { version = "1", features = ["macros", "rt-multi-thread"] }
unidecode = "0.3"
warp = "0.3"
