[package]
name = "rustyfish"
version = "0.1.0"
edition = "2021"
publish = false

[dependencies]
shakmaty = "=0.27.3"
rand = "=0.8.8"
log = "=0.4.34"
log4rs = "=1.4.0"
