//! Kernel logic of a small x86 teaching OS: heap allocators, a VGA text
//! writer, an in-memory file system, timers and the interactive shell.
pub mod boot;
pub mod devices;
pub mod interrupt;
pub mod io;
pub mod irq;
pub mod mm;
pub mod task;
