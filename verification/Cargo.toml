[package]
name = "rp2350_misc"
version = "0.1.0"
edition = "2021"
publish = false

[dependencies]
defmt = "=1.2.0"
defmt-rtt = "=1.3.1"
embassy-executor = { version = "=0.9.1", features = ["executor-thread", "defmt"] }
embassy-rp = { version = "=0.10.0", features = ["rp235xa", "time-driver", "critical-section-impl", "defmt", "binary-info"] }
embassy-sync = { version = "=0.8.0", features = ["defmt"] }
embassy-time = { version = "=0.5.1", features = ["defmt"] }
fixed = "=1.31.0"
panic-probe = { version = "=1.0.0", features = ["print-defmt"] }
