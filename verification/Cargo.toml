[package]
name = "addpath"
version = "0.1.0"
edition = "2021"
publish = false

[dependencies]
clap = "2"
colored = "*"
crossterm = "*"
dirs = "*"
walkdir = "2"
