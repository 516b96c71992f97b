[package]
name = "kernel_core"
version = "0.1.0"
edition = "2021"
publish = false

[dependencies]
linked_list_allocator = { version = "0.9", default-features = false }
pc-keyboard = "0.5"
spin = "0.5"
lazy_static = { version = "1", features = ["spin_no_std"] }
x86_64 = { version = "0.14", default-features = false, features = ["instructions"] }
