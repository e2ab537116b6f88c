[package]
name = "polaros"
version = "0.1.0"
edition = "2021"
publish = false

[dependencies]
font8x8 = { version = "=0.3.1", default-features = false }
pc-keyboard = "=0.7.0"
x86_64 = { version = "=0.14.13", default-features = false, features = ["instructions"] }
spin = "=0.9.9"
lazy_static = { version = "=1.5.1", features = ["spin_no_std"] }
xmas-elf = "=0.9.1"
bootloader = { version = "=0.9.35", features = ["map_physical_memory", "vga_320x200"] }
pic8259 = { version = "0.10", default-features = false }
uart_16550 = "0.2"
linked_list_allocator = "0.10"
volatile = "0.2"
