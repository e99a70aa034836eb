[package]
name = "two_phase_election"
version = "0.1.0"
edition = "2021"
publish = false

[dependencies]
sp-npos-elections = "2"
sp-arithmetic = "2"

[dev-dependencies]
parity-scale-codec = "3"
