[package]
name = "betterjenkins"
version = "0.1.0"
edition = "2021"
publish = false

[dependencies]
tokio = { version = "1", features = ["macros", "rt-multi-thread", "signal", "time"] }
tokio-util = "0.7"
actix-web = { version = "4", default-features = false, features = ["macros"] }
actix-files = "0.6"
sqlx = { version = "0.8", default-features = false, features = ["postgres", "runtime-tokio"] }
kube = { version = "*", default-features = false, features = ["client", "rustls-tls"] }
k8s-openapi = { version = "*", features = ["latest"] }
serde = { version = "1", features = ["derive"] }
serde_yaml = "0.9"
dotenv = "0.15"
rust-s3 = { version = "0.33", default-features = false, features = ["tokio-rustls-tls", "fail-on-err"] }
