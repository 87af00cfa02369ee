[package]
name = "memflow"
version = "0.1.0"
edition = "2021"
publish = false

[dependencies]
pelite = "=0.10.0"
dataview = "=1.1.0"
goblin = "=0.10.7"
libloading = "=0.9.0"
dirs = "=7.0.0"
log = "=0.4.34"
clap = "=2.34.0"
duma = "=0.2.0"
