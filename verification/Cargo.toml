[package]
name = "t_rex"
version = "0.1.0"
edition = "2021"
publish = false

[dependencies]
clap = "2.34"
gdal = "*"
hyper = "0.10"
log = "0.4"
nickel = "0.11"
nickel_mustache = "*"
