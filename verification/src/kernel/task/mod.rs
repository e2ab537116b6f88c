pub mod context;
pub mod scheduler;
