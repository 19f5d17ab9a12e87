[package]
name = "initrz"
version = "0.1.0"
edition = "2021"
publish = false

[dependencies]
anyhow = "1"
bstr = "1"
camino = "1"
clap = { version = "4", features = ["derive"] }
colored = "*"
dowser = "*"
either = "1"
file-format = "*"
glob = "*"
libblkid-rs = "*"
libc = "0.2"
libcryptsetup-rs = "*"
log = "0.4"
mount-api = "*"
netlink-sys = "*"
nix = { version = "*", features = ["kmod", "fs"] }
object = "*"
rayon = "1"
rpassword = "*"
serde = { version = "1", features = ["derive"] }
serde_yaml = "*"
simplelog = "*"
xz2 = "*"
zstd = "*"
