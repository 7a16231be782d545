//! A simulated C library for a symbolic machine: memory, files and the
//! libc calls that a program under analysis makes.
pub mod value;
pub mod memory;
pub mod sims;
pub mod state;
