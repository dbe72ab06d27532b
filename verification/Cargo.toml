[package]
name = "pdb_frames"
version = "0.1.0"
edition = "2021"
publish = false

[dependencies]
pdb = "0.6"
getopts = "0.2"
