[package]
name = "overseer"
version = "0.1.0"
edition = "2021"
publish = false

[dependencies]
chrono = { version = "=0.4.45", features = ["serde"] }
clap = { version = "=4.6.7", features = ["derive"] }
gix = "=0.90.0"
jj-lib = "=0.32.0"
# no code names kstring: jj-lib depends on it, and later versions of it need a later compiler
kstring = "=2.0.2"
open = "=5.4.5"
owo-colors = "=4.4.0"
rusqlite = { version = "=0.41.0", features = ["bundled"] }
serde = { version = "=1.0.229", features = ["derive"] }
serde_json = "=1.0.154"
thiserror = "=2.0.21"
ulid = "=1.2.1"
