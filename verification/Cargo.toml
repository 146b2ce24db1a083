[package]
name = "mpt_storage"
version = "0.1.0"
edition = "2021"
publish = false

[dependencies]
chrono = { version = "=0.4.45", default-features = false, features = ["std"] }
diesel = { version = "=1.4.8", features = ["mysql", "r2d2", "chrono"] }
dotenv = "=0.15.0"
log = "=0.4.34"
parking_lot = "=0.12.5"
