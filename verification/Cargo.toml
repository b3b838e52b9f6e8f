[package]
name = "envseal"
version = "0.1.0"
edition = "2021"
publish = false

[dependencies]
aes-gcm = "=0.10.3"
argon2 = { version = "=0.6.0", features = ["parallel"] }
ed25519-dalek = "=2.2.0"
hkdf = "=0.12.4"
sha2 = "=0.10.9"
rand = "=0.8.8"
base64 = "=0.22.1"
zstd = "=0.13.4"
age = { version = "=0.11.5", features = ["armor", "ssh", "cli-common"] }
keyring = "=3.6.3"
dialoguer = "=0.11.0"
rpassword = "=7.5.4"
directories = "=5.0.1"
fs2 = "=0.4.3"
tempfile = "=3.27.0"
toml = "=0.8.23"
serde = { version = "=1.0.229", features = ["derive"] }
serde_json = "=1.0.154"
rmp-serde = "=1.3.1"
clap = { version = "=4.6.7", features = ["derive"] }
anyhow = "=1.0.104"
zeroize = { version = "=1.9.1", features = ["derive"] }
