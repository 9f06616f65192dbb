[package]
name = "senatorial_notes"
version = "0.3.0"
edition = "2021"
publish = false

[dependencies]
argon2 = "=0.5.3"
chacha20poly1305 = "=0.10.1"
chrono = { version = "=0.4.45", default-features = false, features = ["clock", "serde", "std"] }
directories = "=6.0.0"
getrandom = "=0.3.4"
gtk4 = { version = "=0.11.5", features = ["v4_12"] }
hkdf = "=0.12.4"
libadwaita = { version = "=0.9.2", features = ["v1_4"] }
serde = { version = "=1.0.229", features = ["derive"] }
serde_json = "=1.0.154"
serde_yaml = "0.9"
sha2 = "=0.10.9"
sourceview5 = "=0.11.2"
thiserror = "2"
toml = "0.8"
uuid = { version = "=1.29.0", features = ["v4", "serde"] }
zeroize = "=1.9.1"
