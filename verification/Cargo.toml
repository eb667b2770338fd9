[package]
name = "lithos_tree"
version = "0.1.0"
edition = "2021"
publish = false

[dependencies]
argparse = "0.2"
fern = "0.3"
libc = "0.2"
log = "0.3"
nix = "0.4"
quire = "0.2"
regex = "0.1"
rustc-serialize = "0.3"
scan_dir = "0.3"
signal = "0.1"
syslog = "2"
time = "0.1"
unshare = "0.1"
