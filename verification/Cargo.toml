[package]
name = "databend-query"
version = "0.1.0"
edition = "2021"
publish = false

[dependencies]
arrow2 = { version = "0.12", default-features = false }
async-trait = "0.1"
bumpalo = "3"
bytes = "1"
futures = "0.3"
sqlparser = "0.17"
