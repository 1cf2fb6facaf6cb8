[package]
name = "hpx"
version = "0.1.0"
edition = "2021"
publish = false

[dependencies]
anyhow = "=1.0.104"
bytes = "=1.12.1"
clap = { version = "=4.6.7", features = ["derive"] }
futures-util = "=0.3.34"
h2 = "=0.4.20"
http = "=1.5.0"
rustls-pemfile = "=2.2.0"
tokio = { version = "=1.54.1", features = ["full"] }
tokio-rustls = { version = "=0.26.6", default-features = false, features = ["ring", "tls12", "logging"] }
tracing = "=0.1.44"
tracing-subscriber = { version = "=0.3.23", features = ["env-filter"] }
uuid = "=1.29.0"

[dev-dependencies]
rcgen = { version = "0.13", default-features = false, features = ["crypto", "pem", "ring"] }
