//! PolarOS kernel library: the file system, shell, scheduler, drivers' decoding
//! logic and the GUI's widget and drawing logic, with their contracts.
pub mod drivers;
pub mod fs;
pub mod gui;
pub mod kernel;
pub mod shell;
pub mod text;
