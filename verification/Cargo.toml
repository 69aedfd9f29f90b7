[package]
name = "csv_records"
version = "0.1.0"
edition = "2021"
publish = false

[dependencies]
crossbeam-channel = "=0.5.17"
memchr = "=2.8.3"
memmap2 = "=0.9.12"
