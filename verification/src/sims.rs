//! The simulated environment of a program: file system and C library.
pub mod fs;
pub mod libc;
