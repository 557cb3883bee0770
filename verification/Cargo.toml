[package]
name = "dpdk"
version = "0.1.0"
edition = "2021"
publish = false

[dependencies]
arrayvec = "0.7"
smoltcp = "*"
pnet = "*"
pnet_datalink = "*"
etherparse = "0.9"
anyhow = "1"
log = "0.4"
simple_logger = "*"
structopt = "0.3"
crossbeam-utils = "0.8"
thiserror = "1"
libc = "0.2"
