pub mod fs;
pub mod vga_buffer;
