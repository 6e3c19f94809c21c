[package]
name = "raop_discovery"
version = "0.1.0"
edition = "2021"
publish = false

[dependencies]
dbus = "*"
libc = "*"
pipewire = "*"
pipewire-sys = "*"
real_c_string = "*"
thiserror = "*"
