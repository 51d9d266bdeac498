[package]
name = "voxel_wfc"
version = "0.1.0"
edition = "2021"
publish = false

[dependencies]
bitvec = "1"
rand = "0.8"
ndarray = "0.15"
