[package]
name = "intern-all"
version = "0.1.0"
edition = "2021"
publish = false

[dependencies]
hashbrown = "0.14"
serde = "1"
trait-set = "0.3"
