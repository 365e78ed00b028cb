[package]
name = "oxisql"
version = "0.1.0"
edition = "2021"
publish = false

[dependencies]
chrono = "*"
clap = { version = "*", features = ["derive"] }
console = "*"
rpassword = "*"
serde_json = "*"
sqlx = { version = "*", default-features = false, features = ["mysql", "runtime-tokio", "chrono", "json"] }
tokio = { version = "*", features = ["macros", "rt-multi-thread"] }
