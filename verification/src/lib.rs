//! Fixed-capacity, lossy ring buffers.
//!
//! [`simple`] holds the plain sequential ring; [`spsc`] holds the ring whose
//! slots change hands through atomic descriptor words. [`window`] says what
//! either of them remembers, [`partition`] how the second one's cells are owned.

pub mod atomics;
pub mod partition;
pub mod simple;
pub mod spsc;
pub mod window;
