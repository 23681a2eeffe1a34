[package]
name = "blog_os_kernel"
version = "0.1.0"
edition = "2021"
publish = false

[dependencies]
linked_list_allocator = { version = "=0.9.1", default-features = false }
crossbeam-queue = "=0.3.14"
pc-keyboard = "=0.5.1"
spin = "=0.5.2"
lazy_static = "=1.5.1"
