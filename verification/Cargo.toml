[package]
name = "alarm_clock"
version = "0.1.0"
edition = "2021"
publish = false

[dependencies]
chrono = "0.4"
heapless = "0.8"
log = "0.4"
anyhow = "1"
esp-idf-svc = "0.51"
