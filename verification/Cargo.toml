[package]
name = "throcc"
version = "0.1.0"
edition = "2021"
publish = false

[dependencies]
anyhow = "=1.0.104"
bytes = "=1.12.1"
clap = { version = "=4.6.7", features = ["derive", "env"] }
cpal = "=0.18.2"
directories = "=6.0.0"
ed25519-dalek = { version = "=3.0.0", features = ["alloc", "pkcs8", "rand_core"] }
neteq = { version = "=0.9.1", default-features = false }
postcard = { version = "=1.1.3", features = ["alloc"] }
quinn = { version = "=0.11.12", default-features = false, features = ["runtime-tokio", "rustls-ring"] }
rand = "=0.10.3"
rcgen = "=0.14.10"
ropus = "=0.12.18"
rusqlite = { version = "=0.41.1", features = ["bundled"] }
rustls = { version = "=0.23.46", default-features = false, features = ["ring", "std"] }
serde = { version = "=1.0.229", features = ["derive"] }
serde_arrays = "=0.2.0"
serde_json = "=1.0.154"
sha2 = "=0.11.1"
sonora = "=0.2.0"
sonora-common-audio = "=0.2.0"
thiserror = "=2.0.21"
tokio = { version = "=1.54.1", features = ["rt-multi-thread", "macros", "sync", "time"] }
tracing = "=0.1.44"
tracing-subscriber = { version = "=0.3.23", features = ["env-filter"] }
