[package]
name = "pdb"
version = "0.1.0"
edition = "2021"
publish = false

[dependencies]
pgrx = { version = "0.16.1", features = ["pg17"] }
tantivy = "0.22"
