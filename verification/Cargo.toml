[package]
name = "git_ai"
version = "0.1.0"
edition = "2021"
publish = false

[dependencies]
sha2 = "=0.11.1"
diff-match-patch-rs = "=0.5.1"
strsim = "=0.11.1"
serde = { version = "=1.0.229", features = ["derive"] }
serde_json = "=1.0.154"
chrono = "=0.4.45"
similar = "=2.7.0"
regex = "1"
