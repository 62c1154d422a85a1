[package]
name = "refuse"
version = "0.1.0"
edition = "2021"
publish = false

[dependencies]
ahash = "=0.8.12"
attribute-derive = "0.10.5"
crossbeam-utils = "0.8"
flume = "0.11"
hashbrown = "=0.14.5"
intentional = "0.1"
kempt = "=0.2.4"
manyhow = "0.11.4"
parking_lot = "0.12"
proc-macro2 = "1"
quote = "1"
syn = { version = "2", features = ["full", "extra-traits"] }
