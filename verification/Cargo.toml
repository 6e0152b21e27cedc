[package]
name = "transit_calendar"
version = "0.1.0"
edition = "2021"
publish = false

[dependencies]
chrono = "0.4"
csv = "1"
log = "0.4"
serde = "1"
serde_derive = "1"
