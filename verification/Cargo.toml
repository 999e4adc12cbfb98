[package]
name = "wordplay"
version = "0.1.0"
edition = "2021"
publish = false

[dependencies]
itertools = "=0.14.0"
rand = "=0.9.5"
moka = { version = "=0.12.16", features = ["sync"] }
bincode = "=2.0.1"
merriam-webster-http = "=0.2.0"
teloxide = { version = "=0.13.0", default-features = false, features = ["macros", "ctrlc_handler", "rustls"] }
# No code names takecell. teloxide-core depends on it, and its release 0.1.2
# asks for a newer compiler than the one that builds this crate.
takecell = ">=0.1.0, <0.1.2"
tokio = { version = "=1.54.1", features = ["rt-multi-thread", "macros", "signal"] }
log = "=0.4.34"
dotenv = "=0.15.0"
pretty_env_logger = "=0.5.0"
