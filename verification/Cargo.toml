[package]
name = "cql_migrate"
version = "0.1.0"
edition = "2021"
publish = false

[dependencies]
anyhow = "1"
md5 = "0.7"
regex = "1"

[dev-dependencies]
nom = "8"
nom_locate = "5"
