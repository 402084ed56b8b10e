//! Background consistency checking of a process's executable memory.
//!
//! The library holds the logic: reading the mapping table of a process,
//! fingerprinting byte ranges, and tracking regions across the iterations of
//! the checking loop. Reading raw memory, the clock and sleeping are left to
//! the host, which hands the library plain values.
pub mod error;
pub mod fingerprint;
pub mod region;
pub mod text;
pub mod maps;
pub mod tracker;
pub mod checker;
pub mod benchmark;
pub mod module;
