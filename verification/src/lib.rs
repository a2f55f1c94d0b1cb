//! A verified model of the memory-management, scheduling and process-syscall
//! logic of a small RISC-V (Sv39) teaching kernel.
pub mod config;
pub mod mm;
pub mod syscall;
pub mod task;
