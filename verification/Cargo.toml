[package]
name = "forkserver_slopt"
version = "0.1.0"
edition = "2021"
publish = false

[dependencies]
libafl = "=0.15.4"
libafl_bolts = "=0.15.4"
rand = "=0.9.5"
rand_distr = "=0.5.1"
serde = { version = "=1.0.229", features = ["derive"] }
clap = { version = "=4.6.7", features = ["derive"] }
env_logger = "=0.11.11"
nix = { version = "=0.30.1", features = ["signal"] }
