[package]
name = "sctp_proto"
version = "0.1.0"
edition = "2021"
publish = false

[dependencies]
bytes = "1"
crc = "3"
fxhash = "0.2"
log = "0.4"
rand = "0.8"
thiserror = "1"
