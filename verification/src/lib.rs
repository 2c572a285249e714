//! A versioned, layered file-encryption engine and the flat-file key store
//! it rests on, with the password store and the small decisions of a
//! command-line tool around them.
//!
//! The library works on values held in memory: the text of the configuration
//! store and the bytes of a file. Reading and writing them is left to the
//! caller.
pub mod antivirus;
pub mod currency;
pub mod encryption;
pub mod password;
pub mod qrcode;
pub mod update;
pub mod utils;
