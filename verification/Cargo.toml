[package]
name = "omni_track"
version = "0.1.0"
edition = "2021"
publish = false

[dependencies]
nmea = "0.7"
chrono = "0.4"
embedded-graphics = "0.8"
log = "0.4"
