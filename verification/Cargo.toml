[package]
name = "rockmail"
version = "0.1.0"
edition = "2021"
publish = false

[dependencies]
regex = "1"
nix = { version = "0.29", features = ["fs", "hostname", "poll", "process", "signal", "user"] }
chrono = "0.4"
time = { version = "0.3", features = ["formatting", "local-offset", "parsing"] }
filetime = "0.2"
miette = "7"
thiserror = "2"
clap = { version = "4", features = ["derive"] }

[dev-dependencies]
tempfile = "3"
