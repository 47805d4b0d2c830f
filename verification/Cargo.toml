[package]
name = "lsm_tree"
version = "0.1.0"
edition = "2021"
publish = false

[dependencies]
byteorder = "1"
crossbeam-skiplist = "0.1"
log = "0.4"
path-absolutize = "3"
value-log = "*"
