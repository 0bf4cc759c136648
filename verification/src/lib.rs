//! A small key-value store that keeps its records as comma-separated
//! lines of bytes.  The library holds the whole logic: the line codec,
//! the operations on a loaded snapshot of records, and the command
//! interpreter that drives them.  Reading and writing the backing file,
//! and the interactive prompt, are left to the surrounding program,
//! which hands the library plain bytes and gets plain bytes back.

pub mod bytes;
pub mod codec;
pub mod command;
pub mod store;
