pub mod elf;
pub mod memory;
pub mod syscall;
pub mod task;
pub mod timer;
