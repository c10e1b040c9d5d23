[package]
name = "litephoton"
version = "0.1.0"
edition = "2021"
publish = false

[dependencies]
memchr = "2"
twoway = "0.2"
num_cpus = "1"
memmap2 = "0.9"
rayon = "1"
clap = { version = "4", features = ["derive"] }
atty = "0.2"
log = "0.4"
log4rs = { version = "1", default-features = false, features = ["console_appender", "pattern_encoder"] }
