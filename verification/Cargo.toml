[package]
name = "qem_simplifier"
version = "0.1.0"
edition = "2021"
publish = false

[dependencies]
clap = { version = "4", features = ["derive"] }
console = "*"
glam = "*"
gltf = "1"
gltf-json = "1"
indicatif = "*"
rayon = "1"
supports-unicode = "*"
tobj = "*"
ufbx = "*"
windows-sys = { version = "*", features = ["Win32_System_Console"] }
