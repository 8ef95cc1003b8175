[package]
name = "fesh_comp"
version = "0.1.0"
edition = "2021"
publish = false

[dependencies]
byteorder = "=1.5.0"
iced-x86 = { version = "=1.21.0", default-features = false, features = ["std", "decoder", "instr_info"] }
object = { version = "=0.40.0", default-features = false, features = ["read", "std"] }
rayon = "=1.12.0"
xz2 = { version = "=0.1.7", features = ["static"] }
