[package]
name = "dynamic_search_rules"
version = "0.1.0"
edition = "2021"
publish = false

[dependencies]
actix-web = { version = "4", default-features = false, features = ["macros"] }
deserr = { version = "0.6", features = ["actix-web"] }
heed = { version = "0.22", default-features = false, features = ["serde-json"] }
itertools = "0.14"
roaring = "0.10"
serde = { version = "1", features = ["derive"] }
serde_json = "1"
thiserror = "2"
time = { version = "0.3", features = ["formatting"] }
tracing = "0.1"
