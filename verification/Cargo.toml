[package]
name = "seriesdb"
version = "0.1.0"
edition = "2021"
publish = false

[dependencies]
chrono = "=0.4.45"
prost = "=0.14.4"
log = "=0.4.34"
thiserror = "=2.0.21"
